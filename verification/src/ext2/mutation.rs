//! Changing files and directories.
use vstd::prelude::*;

use crate::block::BlockDevice;
use crate::bytes::{
    copy_range, get_u16, get_u32, le16, put_bytes, put_u16, put_u32, splice, to_le16, to_le32,
    zeros,
};
use crate::fs::{EntryView, Name, NodeId, NodeKind};
use crate::heap::Heap;

use super::allocator::{
    claim_block, claim_block_step, claim_inode, claim_inode_step, release_block, release_block_step,
    release_inode, release_inode_step, GROUP_DESCRIPTOR_BLOCK,
};
use super::directory::{
    self, block_count, blocks_for, encoded, insert_step, lookup_step, only_read, read_dir_step,
    remove_step, short_listing, type_of, NewEntry, DIRECTORY_FILETYPE_DIRECTORY, DOT,
};
use super::inode::{
    self, entry_of, lesser, load_step, metadata_of, pointer_of, store_step, Inode, DIRECT_BLOCKS,
    INODE_BYTES, MAX_FILE_BYTES,
};
use super::on_disk::{
    BLOCK_BYTES, GROUP_DESCRIPTOR_USED_DIRS, INODE_BLOCK, INODE_BLOCKS, INODE_LINKS, INODE_MODE,
    INODE_SIZE_LO,
};
use super::volume::{corrupt, Step, Volume};
use super::{Ext2, Ext2Error};

verus! {

/// Data blocks that a file can have: direct and indirect.
pub const TABLE_LEN: usize = 1036;

/// The bytes of the pointers in an inode record that a file uses: the direct ones and that of
/// the indirect block.
pub const POINTER_BYTES: usize = 52;

/// The mode of a new file: regular, readable by all and writable by its owner.
pub const NEW_FILE_MODE: u16 = 0x81A4;

/// The mode of a new directory.
pub const NEW_DIRECTORY_MODE: u16 = 0x41ED;

/// Where a file's data is: its indirect block, and its data blocks by logical number. Zero
/// stands for no block.
pub struct Layout {
    pub indirect: u32,
    pub data: Seq<u32>,
}

/// The layout that a record and the content of its indirect block give.
pub open spec fn layout_of(record: Seq<u8>, content: Option<Seq<u8>>) -> Layout {
    Layout {
        indirect: pointer_of(record, 12),
        data: Seq::new(
            TABLE_LEN as nat,
            |i: int|
                if i < DIRECT_BLOCKS {
                    pointer_of(record, i)
                } else {
                    match content {
                        Some(content) => entry_of(content, i - DIRECT_BLOCKS),
                        None => 0,
                    }
                },
        ),
    }
}

/// Loads a file's layout.
pub open spec fn layout_step(v: Volume, record: Seq<u8>) -> Step<Layout> {
    if pointer_of(record, 12) == 0 {
        v.done(layout_of(record, None))
    } else {
        v.read(pointer_of(record, 12)).and_then(
            |content: Seq<u8>, v: Volume| v.done(layout_of(record, Some(content))),
        )
    }
}

/// The number of blocks among the first `n`.
pub open spec fn used_among(data: Seq<u32>, n: int) -> int
    decreases n,
{
    if n <= 0 {
        0
    } else {
        used_among(data, n - 1) + if data[n - 1] != 0 {
            1int
        } else {
            0
        }
    }
}

/// The sectors that a layout takes, the indirect block among them.
pub open spec fn sectors_of(layout: Layout) -> int {
    8 * (used_among(layout.data, TABLE_LEN as int) + if layout.indirect != 0 {
        1int
    } else {
        0
    })
}

/// The bytes of a record's pointers.
pub open spec fn pointer_bytes(layout: Layout) -> Seq<u8> {
    Seq::new(
        POINTER_BYTES as nat,
        |i: int|
            to_le32(
                if i / 4 < DIRECT_BLOCKS {
                    layout.data[i / 4]
                } else {
                    layout.indirect
                },
            )[i % 4],
    )
}

/// The content of a layout's indirect block.
pub open spec fn indirect_bytes(data: Seq<u32>) -> Seq<u8> {
    Seq::new(BLOCK_BYTES as nat, |i: int| to_le32(data[DIRECT_BLOCKS + i / 4])[i % 4])
}

/// A record with its layout, size and sector count replaced.
pub open spec fn published(record: Seq<u8>, layout: Layout, size: int) -> Seq<u8> {
    splice(
        splice(
            splice(record, INODE_BLOCK as int, pointer_bytes(layout)),
            INODE_SIZE_LO as int,
            to_le32(size as u32),
        ),
        INODE_BLOCKS as int,
        to_le32(sectors_of(layout) as u32),
    )
}

/// Gives a layout an indirect block where `needed` data blocks ask for one.
pub open spec fn ensure_indirect_step(v: Volume, layout: Layout, needed: int) -> Step<Layout> {
    if needed > DIRECT_BLOCKS && layout.indirect == 0 {
        claim_block_step(v).and_then(
            |block: u32, v: Volume|
                v.write_through(block, zeros(BLOCK_BYTES as nat)).and_then(
                    |u: (), v: Volume| v.done(Layout { indirect: block, data: layout.data }),
                ),
        )
    } else {
        v.done(layout)
    }
}

/// Claims a block for each of the logical blocks from `logical` to `needed` that has none, in
/// order; with `zeroed`, each is filled with zeros when it is claimed.
pub open spec fn claim_missing(
    v: Volume,
    data: Seq<u32>,
    logical: int,
    needed: int,
    zeroed: bool,
) -> Step<Seq<u32>>
    decreases needed - logical,
{
    if logical >= needed {
        v.done(data)
    } else if data[logical] != 0 {
        claim_missing(v, data, logical + 1, needed, zeroed)
    } else {
        let claimed = claim_block_step(v);
        match claimed.result {
            Err(e) => claimed.volume.fail(e),
            Ok(block) => {
                let ready = if zeroed {
                    claimed.volume.write_through(block, zeros(BLOCK_BYTES as nat))
                } else {
                    claimed.volume.done(())
                };
                match ready.result {
                    Err(e) => ready.volume.fail(e),
                    Ok(()) => claim_missing(
                        ready.volume,
                        data.update(logical, block),
                        logical + 1,
                        needed,
                        zeroed,
                    ),
                }
            },
        }
    }
}

/// Whether one of the first `needed` logical blocks is named by the indirect block and has no
/// block.
pub open spec fn indirect_gap(data: Seq<u32>, needed: int) -> bool {
    exists|i: int| DIRECT_BLOCKS <= i < needed && #[trigger] data[i] == 0
}

/// Writes the indirect block, if it changed.
pub open spec fn write_indirect_step(v: Volume, layout: Layout, dirty: bool) -> Step<()> {
    if dirty {
        v.write_through(layout.indirect, indirect_bytes(layout.data))
    } else {
        v.done(())
    }
}

/// The greater of two numbers.
pub open spec fn greater(a: int, b: int) -> int {
    if a >= b {
        a
    } else {
        b
    }
}

/// A block's content with the part of `src` that falls into it, where `src` is written at
/// `offset` of the file and the block is logical block `logical`.
pub open spec fn overlaid(base: Seq<u8>, logical: int, offset: int, src: Seq<u8>) -> Seq<u8> {
    let start = logical * BLOCK_BYTES;
    let from = greater(offset, start);
    let to = lesser(offset + src.len(), start + BLOCK_BYTES);
    splice(base, from - start, src.subrange(from - offset, to - offset))
}

/// Whether bytes written at `offset` reach logical block `logical`.
pub open spec fn overlaps(logical: int, offset: int, len: int) -> bool {
    logical * BLOCK_BYTES < offset + len && offset < logical * BLOCK_BYTES + BLOCK_BYTES
}

/// Writes `src` at `offset` into the blocks of a file from `logical` on. `before` and `data` are
/// the blocks before and after the missing ones were claimed: a block that the bytes do not
/// reach is written only if it is new, and then with zeros.
pub open spec fn fill_from(
    v: Volume,
    before: Seq<u32>,
    data: Seq<u32>,
    offset: int,
    src: Seq<u8>,
    logical: int,
    needed: int,
) -> Step<()>
    decreases needed - logical,
{
    if logical >= needed {
        v.done(())
    } else {
        let filled = fill_step(v, before, data, offset, src, logical);
        match filled.result {
            Err(e) => filled.volume.fail(e),
            Ok(()) => fill_from(filled.volume, before, data, offset, src, logical + 1, needed),
        }
    }
}

/// Writes the part of `src` that falls into one block.
pub open spec fn fill_step(
    v: Volume,
    before: Seq<u32>,
    data: Seq<u32>,
    offset: int,
    src: Seq<u8>,
    logical: int,
) -> Step<()> {
    let blank = zeros(BLOCK_BYTES as nat);
    if !overlaps(logical, offset, src.len() as int) {
        if before[logical] == 0 {
            v.write_through(data[logical], blank)
        } else {
            v.done(())
        }
    } else if before[logical] == 0 {
        v.write_through(data[logical], overlaid(blank, logical, offset, src))
    } else {
        v.read_for_update(data[logical]).and_then(
            |base: Seq<u8>, v: Volume|
                v.write_through(data[logical], overlaid(base, logical, offset, src)),
        )
    }
}

/// Writes `src` at `offset` of the file with a record.
#[verifier::opaque]
pub open spec fn write_step(
    v: Volume,
    node: NodeId,
    record: Seq<u8>,
    offset: int,
    src: Seq<u8>,
) -> Step<()> {
    let size = greater(metadata_of(record)->Ok_0.len as int, offset + src.len());
    let needed = blocks_for(size);
    layout_step(v, record).and_then(
        |old_layout: Layout, v: Volume|
            ensure_indirect_step(v, old_layout, needed).and_then(
                |rooted: Layout, v: Volume|
                    claim_missing(v, rooted.data, 0, needed, false).and_then(
                        |data: Seq<u32>, v: Volume|
                            {
                                let layout = Layout { indirect: rooted.indirect, data };
                                fill_from(v, old_layout.data, data, offset, src, 0, needed).and_then(
                                    |u: (), v: Volume|
                                        write_indirect_step(
                                            v,
                                            layout,
                                            indirect_gap(old_layout.data, needed),
                                        ).and_then(
                                            |u: (), v: Volume|
                                                store_step(v, node, published(record, layout, size)),
                                        ),
                                )
                            },
                    ),
            ),
    )
}

/// Writes `src` at `offset` of a file, which grows where the bytes end behind it. Blocks that
/// the file gains before `offset` hold zeros.
pub open spec fn write_at_step(v: Volume, node: NodeId, offset: u64, src: Seq<u8>) -> Step<()> {
    match v.writable() {
        Err(e) => v.fail(e),
        Ok(()) => if offset + src.len() > u64::MAX {
            v.fail(corrupt("write_offset"))
        } else if offset + src.len() > MAX_FILE_BYTES {
            v.fail(Ext2Error::FileTooLarge)
        } else {
            load_step(v, node).and_then(
                |record: Seq<u8>, v: Volume|
                    if metadata_of(record)->Ok_0.kind != NodeKind::Regular {
                        v.fail(Ext2Error::WrongNodeKind)
                    } else if src.len() == 0 {
                        v.done(())
                    } else {
                        write_step(v, node, record, offset as int, src)
                    },
            )
        },
    }
}

/// Lengthens the file with a record to `len` bytes, with zeros.
#[verifier::opaque]
pub open spec fn grow_step(v: Volume, node: NodeId, record: Seq<u8>, len: int) -> Step<()> {
    let needed = blocks_for(len);
    layout_step(v, record).and_then(
        |old_layout: Layout, v: Volume|
            ensure_indirect_step(v, old_layout, needed).and_then(
                |rooted: Layout, v: Volume|
                    claim_missing(v, rooted.data, 0, needed, true).and_then(
                        |data: Seq<u32>, v: Volume|
                            {
                                let layout = Layout { indirect: rooted.indirect, data };
                                write_indirect_step(
                                    v,
                                    layout,
                                    indirect_gap(old_layout.data, needed),
                                ).and_then(
                                    |u: (), v: Volume|
                                        store_step(v, node, published(record, layout, len)),
                                )
                            },
                    ),
            ),
    )
}

/// A layout without the blocks from `keep` on.
pub open spec fn trimmed(layout: Layout, keep: int) -> Layout {
    Layout {
        indirect: if keep > DIRECT_BLOCKS {
            layout.indirect
        } else {
            0
        },
        data: Seq::new(
            TABLE_LEN as nat,
            |i: int|
                if i < keep {
                    layout.data[i]
                } else {
                    0
                },
        ),
    }
}

/// Releases the blocks from `from` to `to` that are there, in order.
pub open spec fn release_all(v: Volume, data: Seq<u32>, from: int, to: int) -> Step<()>
    decreases to - from,
{
    if from >= to {
        v.done(())
    } else if data[from] == 0 {
        release_all(v, data, from + 1, to)
    } else {
        let released = release_block_step(v, data[from]);
        match released.result {
            Err(e) => released.volume.fail(e),
            Ok(()) => release_all(released.volume, data, from + 1, to),
        }
    }
}

/// Releases the indirect block of a layout, if it has one.
pub open spec fn release_indirect_step(v: Volume, indirect: u32) -> Step<()> {
    if indirect != 0 {
        release_block_step(v, indirect)
    } else {
        v.done(())
    }
}

/// Shortens the file with a record to `len` bytes. The record no longer names a block when the
/// block is released.
#[verifier::opaque]
pub open spec fn shrink_step(v: Volume, node: NodeId, record: Seq<u8>, len: int) -> Step<()> {
    let keep = blocks_for(len);
    layout_step(v, record).and_then(
        |layout: Layout, v: Volume|
            {
                let kept = trimmed(layout, keep);
                store_step(v, node, published(record, kept, len)).and_then(
                    |u: (), v: Volume|
                        write_indirect_step(v, kept, kept.indirect != 0).and_then(
                            |u: (), v: Volume|
                                release_all(
                                    v,
                                    layout.data,
                                    keep,
                                    blocks_for(metadata_of(record)->Ok_0.len as int),
                                ).and_then(
                                    |u: (), v: Volume|
                                        release_indirect_step(
                                            v,
                                            if keep <= DIRECT_BLOCKS {
                                                layout.indirect
                                            } else {
                                                0
                                            },
                                        ),
                                ),
                        ),
                )
            },
    )
}

/// Sets the length of a file.
pub open spec fn truncate_step(v: Volume, node: NodeId, len: u64) -> Step<()> {
    match v.writable() {
        Err(e) => v.fail(e),
        Ok(()) => if len > MAX_FILE_BYTES {
            v.fail(Ext2Error::FileTooLarge)
        } else {
            load_step(v, node).and_then(
                |record: Seq<u8>, v: Volume|
                    {
                        let metadata = metadata_of(record)->Ok_0;
                        if metadata.kind != NodeKind::Regular {
                            v.fail(Ext2Error::WrongNodeKind)
                        } else if len == metadata.len {
                            v.done(())
                        } else if len > metadata.len {
                            grow_step(v, node, record, len as int)
                        } else {
                            shrink_step(v, node, record, len as int)
                        }
                    },
            )
        },
    }
}

/// Loads a file's layout: its data blocks into `table`; gives its indirect block.
fn load_layout<D: BlockDevice>(fs: &mut Ext2<D>, inode: &Inode, table: &mut [u32; TABLE_LEN]) -> (r:
    Result<u32, Ext2Error>)
    requires
        old(fs).wf(),
    ensures
        final(fs).wf(),
        final(fs).volume() == layout_step(old(fs).volume(), inode.bytes@).volume,
        match layout_step(old(fs).volume(), inode.bytes@).result {
            Ok(layout) => r == Ok::<u32, Ext2Error>(layout.indirect) && final(table)@
                == layout.data,
            Err(e) => r == Err::<u32, Ext2Error>(e),
        },
{
    let indirect: u32 = inode.pointer(12);
    let mut content = [0u8; BLOCK_BYTES];
    if indirect != 0 {
        fs.read_block(indirect, &mut content)?;
    }
    let ghost whole = layout_of(
        inode.bytes@,
        if indirect != 0 {
            Some(content@)
        } else {
            None
        },
    );
    let mut i: usize = 0;
    while i < TABLE_LEN
        invariant
            i <= TABLE_LEN,
            whole == layout_of(
                inode.bytes@,
                if indirect != 0 {
                    Some(content@)
                } else {
                    None
                },
            ),
            forall|j: int| 0 <= j < i ==> table@[j] == #[trigger] whole.data[j],
        decreases TABLE_LEN - i,
    {
        if i < DIRECT_BLOCKS as usize {
            table[i] = inode.pointer(i);
        } else if indirect != 0 {
            table[i] = get_u32(&content, 4 * (i - DIRECT_BLOCKS as usize));
        } else {
            table[i] = 0;
        }
        i = i + 1;
    }
    assert(table@ =~= whole.data);
    Ok(indirect)
}

/// Gives a file an indirect block where `needed` data blocks ask for one.
fn ensure_indirect<D: BlockDevice>(
    fs: &mut Ext2<D>,
    indirect: u32,
    needed: u32,
    Ghost(data): Ghost<Seq<u32>>,
) -> (r: Result<u32, Ext2Error>)
    requires
        old(fs).wf(),
    ensures
        final(fs).wf(),
        (Step {
            result: match r {
                Ok(block) => Ok(Layout { indirect: block, data }),
                Err(e) => Err(e),
            },
            volume: final(fs).volume(),
        }) == ensure_indirect_step(
            old(fs).volume(),
            (Layout { indirect, data }),
            needed as int,
        ),
{
    if needed > DIRECT_BLOCKS && indirect == 0 {
        let block: u32 = claim_block(fs)?;
        let blank = [0u8; BLOCK_BYTES];
        assert(blank@ =~= zeros(BLOCK_BYTES as nat));
        fs.write_through(block, &blank)?;
        Ok(block)
    } else {
        Ok(indirect)
    }
}

/// Claims a block for each of the first `needed` logical blocks that has none.
fn claim_blocks<D: BlockDevice>(
    fs: &mut Ext2<D>,
    table: &mut [u32; TABLE_LEN],
    needed: u32,
    zeroed: bool,
) -> (r: Result<bool, Ext2Error>)
    requires
        old(fs).wf(),
        needed <= TABLE_LEN,
    ensures
        final(fs).wf(),
        final(fs).volume() == claim_missing(
            old(fs).volume(),
            old(table)@,
            0,
            needed as int,
            zeroed,
        ).volume,
        match claim_missing(old(fs).volume(), old(table)@, 0, needed as int, zeroed).result {
            Ok(data) => r == Ok::<bool, Ext2Error>(indirect_gap(old(table)@, needed as int))
                && final(table)@ == data,
            Err(e) => r == Err::<bool, Ext2Error>(e),
        },
{
    let ghost whole = claim_missing(fs.volume(), table@, 0, needed as int, zeroed);
    let ghost before = table@;
    let blank = [0u8; BLOCK_BYTES];
    assert(blank@ =~= zeros(BLOCK_BYTES as nat));
    let mut dirty = false;
    let mut logical: usize = 0;
    while logical < needed as usize
        invariant
            fs.wf(),
            logical <= needed <= TABLE_LEN,
            blank@ == zeros(BLOCK_BYTES as nat),
            table@.len() == TABLE_LEN,
            before.len() == TABLE_LEN,
            forall|i: int| logical <= i < TABLE_LEN ==> table@[i] == before[i],
            dirty == indirect_gap(before, logical as int),
            before == old(table)@,
            whole == claim_missing(old(fs).volume(), before, 0, needed as int, zeroed),
            whole == claim_missing(fs.volume(), table@, logical as int, needed as int, zeroed),
        decreases needed - logical,
    {
        assert(table@[logical as int] == before[logical as int]);
        if table[logical] == 0 {
            let block: u32 = claim_block(fs)?;
            if zeroed {
                fs.write_through(block, &blank)?;
            }
            table[logical] = block;
            if logical >= DIRECT_BLOCKS as usize {
                dirty = true;
            }
        }
        proof {
            if dirty && !indirect_gap(before, logical as int) {
                assert(before[logical as int] == 0);
            }
            if indirect_gap(before, logical as int) {
                let i = choose|i: int| DIRECT_BLOCKS <= i < logical && #[trigger] before[i] == 0;
                assert(before[i] == 0);
            }
        }
        logical = logical + 1;
    }
    Ok(dirty)
}

/// Writes `src` at `offset` into the first `needed` blocks of a file.
fn fill_blocks<D: BlockDevice>(
    fs: &mut Ext2<D>,
    before: &[u32; TABLE_LEN],
    table: &[u32; TABLE_LEN],
    offset: u64,
    src: &[u8],
    needed: u32,
) -> (r: Result<(), Ext2Error>)
    requires
        old(fs).wf(),
        needed <= TABLE_LEN,
        offset + src@.len() <= MAX_FILE_BYTES,
    ensures
        final(fs).wf(),
        (Step { result: r, volume: final(fs).volume() }) == fill_from(
            old(fs).volume(),
            before@,
            table@,
            offset as int,
            src@,
            0,
            needed as int,
        ),
{
    let ghost whole = fill_from(
        fs.volume(),
        before@,
        table@,
        offset as int,
        src@,
        0,
        needed as int,
    );
    let end: u64 = offset + src.len() as u64;
    let mut logical: u32 = 0;
    while logical < needed
        invariant
            fs.wf(),
            logical <= needed <= TABLE_LEN,
            end == offset + src@.len(),
            end <= MAX_FILE_BYTES,
            whole == fill_from(
                old(fs).volume(),
                before@,
                table@,
                offset as int,
                src@,
                0,
                needed as int,
            ),
            whole == fill_from(
                fs.volume(),
                before@,
                table@,
                offset as int,
                src@,
                logical as int,
                needed as int,
            ),
        decreases needed - logical,
    {
        let target: u32 = table[logical as usize];
        let existed = before[logical as usize] != 0;
        let block_start: u64 = logical as u64 * BLOCK_BYTES as u64;
        let block_end: u64 = block_start + BLOCK_BYTES as u64;
        let mut block = [0u8; BLOCK_BYTES];
        assert(block@ =~= zeros(BLOCK_BYTES as nat));
        if end <= block_start || offset >= block_end {
            if !existed {
                fs.write_through(target, &block)?;
            }
        } else {
            if existed {
                fs.read_block_for_update(target, &mut block)?;
            }
            let from: u64 = if offset >= block_start {
                offset
            } else {
                block_start
            };
            let to: u64 = if end <= block_end {
                end
            } else {
                block_end
            };
            let part = copy_range(src, (from - offset) as usize, (to - offset) as usize);
            put_bytes(&mut block, (from - block_start) as usize, part.as_slice());
            fs.write_through(target, &block)?;
        }
        logical = logical + 1;
    }
    Ok(())
}

/// Writes the indirect block, if it changed.
fn write_indirect<D: BlockDevice>(
    fs: &mut Ext2<D>,
    indirect: u32,
    table: &[u32; TABLE_LEN],
    dirty: bool,
) -> (r: Result<(), Ext2Error>)
    requires
        old(fs).wf(),
    ensures
        final(fs).wf(),
        (Step { result: r, volume: final(fs).volume() }) == write_indirect_step(
            old(fs).volume(),
            (Layout { indirect, data: table@ }),
            dirty,
        ),
{
    if !dirty {
        return Ok(());
    }
    let mut content = [0u8; BLOCK_BYTES];
    let mut i: usize = 0;
    while i < 1024
        invariant
            i <= 1024,
            forall|j: int| 0 <= j < 4 * i ==> content@[j] == #[trigger] indirect_bytes(table@)[j],
        decreases 1024 - i,
    {
        let ghost before = content@;
        put_u32(&mut content, 4 * i, table[DIRECT_BLOCKS as usize + i]);
        assert forall|j: int| 0 <= j < 4 * (i + 1) implies content@[j]
            == #[trigger] indirect_bytes(table@)[j] by {
            if j < 4 * i {
                assert(before[j] == indirect_bytes(table@)[j]);
            } else {
                assert(j / 4 == i && j % 4 == j - 4 * i);
            }
        }
        i = i + 1;
    }
    assert(content@ =~= indirect_bytes(table@));
    fs.write_through(indirect, &content)
}

/// The number of blocks in a table.
fn count_used(table: &[u32; TABLE_LEN]) -> (count: usize)
    ensures
        count == used_among(table@, TABLE_LEN as int),
        count <= TABLE_LEN,
{
    let mut count: usize = 0;
    let mut i: usize = 0;
    while i < TABLE_LEN
        invariant
            i <= TABLE_LEN,
            count <= i,
            count == used_among(table@, i as int),
        decreases TABLE_LEN - i,
    {
        if table[i] != 0 {
            count = count + 1;
        }
        i = i + 1;
    }
    count
}

/// Replaces a record's layout, size and sector count.
fn publish(inode: &mut Inode, indirect: u32, table: &[u32; TABLE_LEN], size: u64)
    requires
        size <= u32::MAX,
    ensures
        final(inode).bytes@ == published(
            old(inode).bytes@,
            (Layout { indirect, data: table@ }),
            size as int,
        ),
{
    let ghost layout = Layout { indirect, data: table@ };
    let ghost record = inode.bytes@;
    let ghost pointers = pointer_bytes(layout);
    let mut i: usize = 0;
    while i < 13
        invariant
            i <= 13,
            inode.bytes@.len() == INODE_BYTES,
            record.len() == INODE_BYTES,
            layout == (Layout { indirect, data: table@ }),
            pointers == pointer_bytes(layout),
            forall|j: int|
                0 <= j < INODE_BYTES ==> #[trigger] inode.bytes@[j] == (if INODE_BLOCK <= j
                    < INODE_BLOCK + 4 * i {
                    pointers[j - INODE_BLOCK]
                } else {
                    record[j]
                }),
        decreases 13 - i,
    {
        let value: u32 = if i < DIRECT_BLOCKS as usize {
            table[i]
        } else {
            indirect
        };
        let ghost before = inode.bytes@;
        put_u32(&mut inode.bytes, INODE_BLOCK + 4 * i, value);
        assert forall|j: int| 0 <= j < INODE_BYTES implies #[trigger] inode.bytes@[j] == (
        if INODE_BLOCK <= j < INODE_BLOCK + 4 * (i + 1) {
            pointers[j - INODE_BLOCK]
        } else {
            record[j]
        }) by {
            assert(inode.bytes@[j] == (if INODE_BLOCK + 4 * i <= j < INODE_BLOCK + 4 * i + 4 {
                to_le32(value)[j - (INODE_BLOCK + 4 * i)]
            } else {
                before[j]
            }));
            if INODE_BLOCK + 4 * i <= j < INODE_BLOCK + 4 * i + 4 {
                assert((j - INODE_BLOCK) / 4 == i && (j - INODE_BLOCK) % 4 == j - INODE_BLOCK - 4
                    * i);
            }
        }
        i = i + 1;
    }
    assert(inode.bytes@ =~= splice(record, INODE_BLOCK as int, pointers));
    put_u32(&mut inode.bytes, INODE_SIZE_LO, size as u32);
    let used: usize = count_used(table);
    let sectors: usize = 8 * (used + if indirect != 0 {
        1usize
    } else {
        0usize
    });
    put_u32(&mut inode.bytes, INODE_BLOCKS, sectors as u32);
}

/// Writes `src` at `offset` of a file.
pub(crate) fn write_at<D: BlockDevice>(
    fs: &mut Ext2<D>,
    node: NodeId,
    offset: u64,
    src: &[u8],
) -> (r:
    Result<(), Ext2Error>)
    requires
        old(fs).wf(),
    ensures
        final(fs).wf(),
        (Step { result: r, volume: final(fs).volume() }) == write_at_step(
            old(fs).volume(),
            node,
            offset,
            src@,
        ),
{
    fs.require_writable()?;
    let end: u64 = match offset.checked_add(src.len() as u64) {
        Some(end) => end,
        None => return Err(Ext2Error::CorruptMetadata { field: "write_offset" }),
    };
    if end > MAX_FILE_BYTES {
        return Err(Ext2Error::FileTooLarge);
    }
    let mut image = inode::load(fs, node)?;
    let metadata = image.metadata()?;
    if metadata.kind != NodeKind::Regular {
        return Err(Ext2Error::WrongNodeKind);
    }
    if src.len() == 0 {
        return Ok(());
    }
    write_file(fs, node, &mut image, offset, src)
}

/// Writes `src` at `offset` of the file with a record.
fn write_file<D: BlockDevice>(
    fs: &mut Ext2<D>,
    node: NodeId,
    image: &mut Inode,
    offset: u64,
    src: &[u8],
) -> (r: Result<(), Ext2Error>)
    requires
        old(fs).wf(),
        offset + src@.len() <= MAX_FILE_BYTES,
        metadata_of(old(image).bytes@) is Ok,
        metadata_of(old(image).bytes@)->Ok_0.len <= MAX_FILE_BYTES,
    ensures
        final(fs).wf(),
        (Step { result: r, volume: final(fs).volume() }) == write_step(
            old(fs).volume(),
            node,
            old(image).bytes@,
            offset as int,
            src@,
        ),
{
    proof {
        reveal(write_step);
    }
    let metadata = image.metadata()?;
    let end: u64 = offset + src.len() as u64;
    let size: u64 = if metadata.len >= end {
        metadata.len
    } else {
        end
    };
    let needed: u32 = block_count(size);
    let mut table = [0u32; TABLE_LEN];
    let present: u32 = load_layout(fs, image, &mut table)?;
    let before = table;
    let indirect: u32 = ensure_indirect(fs, present, needed, Ghost(table@))?;
    let dirty = claim_blocks(fs, &mut table, needed, false)?;
    fill_blocks(fs, &before, &table, offset, src, needed)?;
    write_indirect(fs, indirect, &table, dirty)?;
    publish(image, indirect, &table, size);
    inode::store(fs, node, image)
}

/// Sets the length of a file.
pub(crate) fn truncate<D: BlockDevice>(fs: &mut Ext2<D>, node: NodeId, len: u64) -> (r: Result<
    (),
    Ext2Error,
>)
    requires
        old(fs).wf(),
    ensures
        final(fs).wf(),
        (Step { result: r, volume: final(fs).volume() }) == truncate_step(
            old(fs).volume(),
            node,
            len,
        ),
{
    fs.require_writable()?;
    if len > MAX_FILE_BYTES {
        return Err(Ext2Error::FileTooLarge);
    }
    let image = inode::load(fs, node)?;
    let metadata = image.metadata()?;
    if metadata.kind != NodeKind::Regular {
        return Err(Ext2Error::WrongNodeKind);
    }
    if len == metadata.len {
        return Ok(());
    }
    if len > metadata.len {
        return grow(fs, node, &image, len);
    }
    shrink(fs, node, &image, len)
}

/// Lengthens a file with zeros.
fn grow<D: BlockDevice>(fs: &mut Ext2<D>, node: NodeId, image: &Inode, len: u64) -> (r: Result<
    (),
    Ext2Error,
>)
    requires
        old(fs).wf(),
        len <= MAX_FILE_BYTES,
    ensures
        final(fs).wf(),
        (Step { result: r, volume: final(fs).volume() }) == grow_step(
            old(fs).volume(),
            node,
            image.bytes@,
            len as int,
        ),
{
    proof {
        reveal(grow_step);
    }
    let needed: u32 = block_count(len);
    let mut table = [0u32; TABLE_LEN];
    let present: u32 = load_layout(fs, image, &mut table)?;
    let indirect: u32 = ensure_indirect(fs, present, needed, Ghost(table@))?;
    let dirty = claim_blocks(fs, &mut table, needed, true)?;
    write_indirect(fs, indirect, &table, dirty)?;
    let mut updated = image.copy();
    publish(&mut updated, indirect, &table, len);
    inode::store(fs, node, &updated)
}

/// Releases the blocks from `from` to `to` that are there.
fn release_blocks<D: BlockDevice>(
    fs: &mut Ext2<D>,
    table: &[u32; TABLE_LEN],
    from: u32,
    to: u32,
) -> (r:
    Result<(), Ext2Error>)
    requires
        old(fs).wf(),
        to <= TABLE_LEN,
    ensures
        final(fs).wf(),
        (Step { result: r, volume: final(fs).volume() }) == release_all(
            old(fs).volume(),
            table@,
            from as int,
            to as int,
        ),
{
    let ghost whole = release_all(fs.volume(), table@, from as int, to as int);
    let mut logical: u32 = from;
    while logical < to
        invariant
            fs.wf(),
            to <= TABLE_LEN,
            whole == release_all(old(fs).volume(), table@, from as int, to as int),
            whole == release_all(fs.volume(), table@, logical as int, to as int),
        decreases to - logical,
    {
        let block: u32 = table[logical as usize];
        if block != 0 {
            release_block(fs, block)?;
        }
        logical = logical + 1;
    }
    Ok(())
}

/// Shortens a file.
fn shrink<D: BlockDevice>(fs: &mut Ext2<D>, node: NodeId, image: &Inode, len: u64) -> (r: Result<
    (),
    Ext2Error,
>)
    requires
        old(fs).wf(),
        len <= MAX_FILE_BYTES,
        metadata_of(image.bytes@) is Ok,
        metadata_of(image.bytes@)->Ok_0.len <= MAX_FILE_BYTES,
    ensures
        final(fs).wf(),
        (Step { result: r, volume: final(fs).volume() }) == shrink_step(
            old(fs).volume(),
            node,
            image.bytes@,
            len as int,
        ),
{
    proof {
        reveal(shrink_step);
    }
    let keep: u32 = block_count(len);
    let blocks: u32 = block_count(image.metadata()?.len);
    let mut table = [0u32; TABLE_LEN];
    let indirect: u32 = load_layout(fs, image, &mut table)?;
    let ghost layout = Layout { indirect, data: table@ };
    let ghost kept = trimmed(layout, keep as int);
    let mut kept_table = [0u32; TABLE_LEN];
    let mut i: usize = 0;
    while i < TABLE_LEN
        invariant
            i <= TABLE_LEN,
            layout.data == table@,
            kept == trimmed(layout, keep as int),
            forall|j: int| 0 <= j < i ==> kept_table@[j] == #[trigger] kept.data[j],
        decreases TABLE_LEN - i,
    {
        kept_table[i] = if i < keep as usize {
            table[i]
        } else {
            0
        };
        i = i + 1;
    }
    assert(kept_table@ =~= kept.data);
    let kept_indirect: u32 = if keep > DIRECT_BLOCKS {
        indirect
    } else {
        0
    };
    let mut updated = image.copy();
    publish(&mut updated, kept_indirect, &kept_table, len);
    inode::store(fs, node, &updated)?;
    write_indirect(fs, kept_indirect, &kept_table, kept_indirect != 0)?;
    release_blocks(fs, &table, keep, blocks)?;
    if keep <= DIRECT_BLOCKS && indirect != 0 {
        release_block(fs, indirect)?;
    }
    Ok(())
}

/// The record of a new, empty file.
pub open spec fn new_file_record() -> Seq<u8> {
    splice(
        splice(zeros(INODE_BYTES as nat), INODE_MODE as int, to_le16(NEW_FILE_MODE)),
        INODE_LINKS as int,
        to_le16(1),
    )
}

/// The record of a new, empty directory whose entries are in `block`.
pub open spec fn new_directory_record(block: u32) -> Seq<u8> {
    let mode = splice(zeros(INODE_BYTES as nat), INODE_MODE as int, to_le16(NEW_DIRECTORY_MODE));
    let links = splice(mode, INODE_LINKS as int, to_le16(2));
    let size = splice(links, INODE_SIZE_LO as int, to_le32(4096));
    let sectors = splice(size, INODE_BLOCKS as int, to_le32(8));
    splice(sectors, INODE_BLOCK as int, to_le32(block))
}

/// The content of a new directory: the entries for itself and its parent.
pub open spec fn new_directory_block(node: u32, parent: u32) -> Seq<u8> {
    encoded(node, 12, DIRECTORY_FILETYPE_DIRECTORY, seq![DOT]) + encoded(
        parent,
        BLOCK_BYTES - 12,
        DIRECTORY_FILETYPE_DIRECTORY,
        seq![DOT, DOT],
    )
}

/// Tests that a node is a directory without an entry of this name.
#[verifier::opaque]
pub open spec fn require_absent_step(v: Volume, parent: NodeId, name: Seq<u8>) -> Step<()> {
    load_step(v, parent).and_then(
        |record: Seq<u8>, v: Volume|
            if metadata_of(record)->Ok_0.kind != NodeKind::Directory {
                v.fail(Ext2Error::WrongNodeKind)
            } else {
                let found = lookup_step(v, parent, name);
                match found.result {
                    Ok(_) => found.volume.fail(Ext2Error::AlreadyExists),
                    Err(Ext2Error::NotFound) => found.volume.done(()),
                    Err(e) => found.volume.fail(e),
                }
            },
    )
}

/// Creates an empty file. The entry in the parent is written last.
pub open spec fn create_file_step(v: Volume, parent: NodeId, name: Seq<u8>) -> Step<NodeId> {
    match v.writable() {
        Err(e) => v.fail(e),
        Ok(()) => require_absent_step(v, parent, name).and_then(
            |u: (), v: Volume|
                claim_inode_step(v).and_then(
                    |number: u32, v: Volume|
                        store_step(v, NodeId(number), new_file_record()).and_then(
                            |u: (), v: Volume|
                                insert_step(
                                    v,
                                    parent,
                                    NewEntry {
                                        node: number,
                                        file_type: type_of(NodeKind::Regular),
                                        name,
                                    },
                                ).and_then(|u: (), v: Volume| v.done(NodeId(number))),
                        ),
                ),
        ),
    }
}

/// Changes the number of directories by one.
pub open spec fn used_dirs_step(v: Volume, increment: bool) -> Step<()> {
    match v.writable() {
        Err(e) => v.fail(e),
        Ok(()) => v.read_for_update(GROUP_DESCRIPTOR_BLOCK).and_then(
            |group: Seq<u8>, v: Volume|
                {
                    let used = le16(group, GROUP_DESCRIPTOR_USED_DIRS as int) + if increment {
                        1int
                    } else {
                        -1
                    };
                    if 0 <= used <= u16::MAX {
                        v.write_through(
                            GROUP_DESCRIPTOR_BLOCK,
                            splice(group, GROUP_DESCRIPTOR_USED_DIRS as int, to_le16(used as u16)),
                        )
                    } else {
                        v.fail(corrupt("used_dirs"))
                    }
                },
        ),
    }
}

/// Changes the number of links to a directory by one.
pub open spec fn parent_links_step(v: Volume, parent: NodeId, increment: bool) -> Step<()> {
    match v.writable() {
        Err(e) => v.fail(e),
        Ok(()) => load_step(v, parent).and_then(
            |record: Seq<u8>, v: Volume|
                {
                    let links = le16(record, INODE_LINKS as int) + if increment {
                        1int
                    } else {
                        -1
                    };
                    if metadata_of(record)->Ok_0.kind != NodeKind::Directory {
                        v.fail(Ext2Error::WrongNodeKind)
                    } else if 0 <= links <= u16::MAX {
                        store_step(
                            v,
                            parent,
                            splice(record, INODE_LINKS as int, to_le16(links as u16)),
                        )
                    } else {
                        v.fail(corrupt("inode_links"))
                    }
                },
        ),
    }
}

/// Writes a new directory's record and content, and counts it.
#[verifier::opaque]
pub open spec fn found_directory_step(
    v: Volume,
    parent: NodeId,
    number: u32,
    block: u32,
) -> Step<()> {
    store_step(v, NodeId(number), new_directory_record(block)).and_then(
        |u: (), v: Volume|
            v.write_through(block, new_directory_block(number, parent.0)).and_then(
                |u: (), v: Volume|
                    used_dirs_step(v, true).and_then(
                        |u: (), v: Volume| parent_links_step(v, parent, true),
                    ),
            ),
    )
}

/// Creates an empty directory. The entry in the parent is written last.
pub open spec fn create_dir_step(v: Volume, parent: NodeId, name: Seq<u8>) -> Step<NodeId> {
    match v.writable() {
        Err(e) => v.fail(e),
        Ok(()) => require_absent_step(v, parent, name).and_then(
            |u: (), v: Volume|
                claim_inode_step(v).and_then(
                    |number: u32, v: Volume|
                        claim_block_step(v).and_then(
                            |block: u32, v: Volume|
                                found_directory_step(v, parent, number, block).and_then(
                                    |u: (), v: Volume|
                                        insert_step(
                                            v,
                                            parent,
                                            NewEntry {
                                                node: number,
                                                file_type: type_of(NodeKind::Directory),
                                                name,
                                            },
                                        ).and_then(|u: (), v: Volume| v.done(NodeId(number))),
                                ),
                        ),
                ),
        ),
    }
}

/// The record of a removed node: no data, no links and no mode.
pub open spec fn cleared(record: Seq<u8>) -> Seq<u8> {
    let bare = published(
        record,
        Layout { indirect: 0, data: Seq::new(TABLE_LEN as nat, |i: int| 0u32) },
        0,
    );
    splice(splice(bare, INODE_LINKS as int, to_le16(0)), INODE_MODE as int, to_le16(0))
}

/// Clears a node's record and releases its blocks and its inode.
#[verifier::opaque]
pub open spec fn discard_step(v: Volume, node: NodeId, record: Seq<u8>) -> Step<()> {
    layout_step(v, record).and_then(
        |layout: Layout, v: Volume|
            store_step(v, node, cleared(record)).and_then(
                |u: (), v: Volume|
                    release_all(v, layout.data, 0, TABLE_LEN as int).and_then(
                        |u: (), v: Volume|
                            release_indirect_step(v, layout.indirect).and_then(
                                |u: (), v: Volume| release_inode_step(v, node.0),
                            ),
                    ),
            ),
    )
}

/// Removes an entry, which must name `child`.
pub open spec fn detach_step(v: Volume, parent: NodeId, name: Seq<u8>, child: NodeId) -> Step<()> {
    remove_step(v, parent, name).and_then(
        |removed: NodeId, v: Volume|
            if removed != child {
                v.fail(corrupt("directory_inode"))
            } else {
                v.done(())
            },
    )
}

/// Removes a file: first its entry, then its data and its inode.
pub open spec fn unlink_file_step(v: Volume, parent: NodeId, name: Seq<u8>) -> Step<()> {
    match v.writable() {
        Err(e) => v.fail(e),
        Ok(()) => lookup_step(v, parent, name).and_then(
            |child: NodeId, v: Volume|
                load_step(v, child).and_then(
                    |record: Seq<u8>, v: Volume|
                        if metadata_of(record)->Ok_0.kind != NodeKind::Regular {
                            v.fail(Ext2Error::WrongNodeKind)
                        } else {
                            detach_step(v, parent, name, child).and_then(
                                |u: (), v: Volume| discard_step(v, child, record),
                            )
                        },
                ),
        ),
    }
}

/// Tests that a node is a directory without named entries, and gives its record.
#[verifier::opaque]
pub open spec fn require_empty_step(v: Volume, node: NodeId) -> Step<Seq<u8>> {
    load_step(v, node).and_then(
        |record: Seq<u8>, v: Volume|
            if metadata_of(record)->Ok_0.kind != NodeKind::Directory {
                v.fail(Ext2Error::WrongNodeKind)
            } else {
                read_dir_step(v, node).and_then(
                    |entries: Seq<EntryView>, v: Volume|
                        if entries.len() > 0 {
                            v.fail(Ext2Error::DirectoryNotEmpty)
                        } else {
                            v.done(record)
                        },
                )
            },
    )
}

/// A file system as it is where the test for named entries needs memory.
pub open spec fn short_test(v: Volume, node: NodeId, after: Volume) -> bool {
    let loaded = load_step(v, node);
    &&& loaded.result is Ok
    &&& short_listing(loaded.volume, node, after)
}

/// A file system as it is where the removal of a directory needs memory: at a named entry of the
/// directory that a name stands for, which is not the root.
pub open spec fn short_removal(v: Volume, parent: NodeId, name: Seq<u8>, after: Volume) -> bool {
    let found = lookup_step(v, parent, name);
    &&& v.writable() is Ok
    &&& found.result is Ok
    &&& found.result->Ok_0.0 != 2
    &&& short_test(found.volume, found.result->Ok_0, after)
}

/// What the removal of a directory returns and leaves, where memory was refused or was not. It can
/// be refused only for a named entry of the directory, which then would not be removed.
pub open spec fn removed_dir(
    before: Volume,
    parent: NodeId,
    name: Seq<u8>,
    refused: bool,
    r: Result<(), Ext2Error>,
    after: Volume,
) -> bool {
    if refused {
        &&& r == Err::<(), Ext2Error>(Ext2Error::Allocation)
        &&& only_read(before, after)
        &&& short_removal(before, parent, name, after)
        &&& remove_dir_step(before, parent, name).result is Err
    } else {
        (Step { result: r, volume: after }) == remove_dir_step(before, parent, name)
    }
}

/// Removes an empty directory: first its entry, then its data and its inode, then the counts.
pub open spec fn remove_dir_step(v: Volume, parent: NodeId, name: Seq<u8>) -> Step<()> {
    match v.writable() {
        Err(e) => v.fail(e),
        Ok(()) => lookup_step(v, parent, name).and_then(
            |child: NodeId, v: Volume|
                if child.0 == 2 {
                    v.fail(Ext2Error::WrongNodeKind)
                } else {
                    require_empty_step(v, child).and_then(
                        |record: Seq<u8>, v: Volume|
                            drop_directory_step(v, parent, name, child, record),
                    )
                },
        ),
    }
}

/// Removes an empty directory's entry, its data and its inode, and uncounts it.
#[verifier::opaque]
pub open spec fn drop_directory_step(
    v: Volume,
    parent: NodeId,
    name: Seq<u8>,
    child: NodeId,
    record: Seq<u8>,
) -> Step<()> {
    detach_step(v, parent, name, child).and_then(
        |u: (), v: Volume|
            discard_step(v, child, record).and_then(
                |u: (), v: Volume|
                    used_dirs_step(v, false).and_then(
                        |u: (), v: Volume| parent_links_step(v, parent, false),
                    ),
            ),
    )
}

/// Tests that a node is a directory without an entry of this name.
fn require_absent<D: BlockDevice>(fs: &mut Ext2<D>, parent: NodeId, name: &Name) -> (r: Result<
    (),
    Ext2Error,
>)
    requires
        old(fs).wf(),
    ensures
        final(fs).wf(),
        (Step { result: r, volume: final(fs).volume() }) == require_absent_step(
            old(fs).volume(),
            parent,
            name@,
        ),
{
    proof {
        reveal(require_absent_step);
    }
    let inode = inode::load(fs, parent)?;
    let metadata = inode.metadata()?;
    if metadata.kind != NodeKind::Directory {
        return Err(Ext2Error::WrongNodeKind);
    }
    match directory::lookup(fs, parent, name) {
        Ok(_) => Err(Ext2Error::AlreadyExists),
        Err(Ext2Error::NotFound) => Ok(()),
        Err(error) => Err(error),
    }
}

/// Creates an empty file.
pub(crate) fn create_file<D: BlockDevice>(fs: &mut Ext2<D>, parent: NodeId, name: &Name) -> (r:
    Result<NodeId, Ext2Error>)
    requires
        old(fs).wf(),
    ensures
        final(fs).wf(),
        (Step { result: r, volume: final(fs).volume() }) == create_file_step(
            old(fs).volume(),
            parent,
            name@,
        ),
{
    fs.require_writable()?;
    require_absent(fs, parent, name)?;
    let number: u32 = claim_inode(fs)?;
    let mut fresh = Inode { bytes: [0u8; INODE_BYTES] };
    assert(fresh.bytes@ =~= zeros(INODE_BYTES as nat));
    put_u16(&mut fresh.bytes, INODE_MODE, NEW_FILE_MODE);
    put_u16(&mut fresh.bytes, INODE_LINKS, 1);
    inode::store(fs, NodeId(number), &fresh)?;
    directory::insert(fs, parent, name, NodeId(number), NodeKind::Regular)?;
    Ok(NodeId(number))
}

/// Changes the number of directories by one.
fn adjust_used_dirs<D: BlockDevice>(fs: &mut Ext2<D>, increment: bool) -> (r: Result<(), Ext2Error>)
    requires
        old(fs).wf(),
    ensures
        final(fs).wf(),
        (Step { result: r, volume: final(fs).volume() }) == used_dirs_step(
            old(fs).volume(),
            increment,
        ),
{
    fs.require_writable()?;
    let mut group = [0u8; BLOCK_BYTES];
    fs.read_block_for_update(GROUP_DESCRIPTOR_BLOCK, &mut group)?;
    let used: u16 = get_u16(&group, GROUP_DESCRIPTOR_USED_DIRS);
    if if increment {
        used == u16::MAX
    } else {
        used == 0
    } {
        return Err(Ext2Error::CorruptMetadata { field: "used_dirs" });
    }
    let updated: u16 = if increment {
        used + 1
    } else {
        used - 1
    };
    put_u16(&mut group, GROUP_DESCRIPTOR_USED_DIRS, updated);
    fs.write_through(GROUP_DESCRIPTOR_BLOCK, &group)
}

/// Changes the number of links to a directory by one.
fn adjust_parent_links<D: BlockDevice>(fs: &mut Ext2<D>, parent: NodeId, increment: bool) -> (r:
    Result<(), Ext2Error>)
    requires
        old(fs).wf(),
    ensures
        final(fs).wf(),
        (Step { result: r, volume: final(fs).volume() }) == parent_links_step(
            old(fs).volume(),
            parent,
            increment,
        ),
{
    fs.require_writable()?;
    let mut image = inode::load(fs, parent)?;
    let metadata = image.metadata()?;
    if metadata.kind != NodeKind::Directory {
        return Err(Ext2Error::WrongNodeKind);
    }
    let links: u16 = get_u16(&image.bytes, INODE_LINKS);
    if if increment {
        links == u16::MAX
    } else {
        links == 0
    } {
        return Err(Ext2Error::CorruptMetadata { field: "inode_links" });
    }
    let updated: u16 = if increment {
        links + 1
    } else {
        links - 1
    };
    put_u16(&mut image.bytes, INODE_LINKS, updated);
    inode::store(fs, parent, &image)
}

/// Writes a new directory's record and content, and counts it.
fn found_directory<D: BlockDevice>(fs: &mut Ext2<D>, parent: NodeId, number: u32, block: u32) -> (r:
    Result<(), Ext2Error>)
    requires
        old(fs).wf(),
    ensures
        final(fs).wf(),
        (Step { result: r, volume: final(fs).volume() }) == found_directory_step(
            old(fs).volume(),
            parent,
            number,
            block,
        ),
{
    proof {
        reveal(found_directory_step);
    }
    let mut fresh = Inode { bytes: [0u8; INODE_BYTES] };
    assert(fresh.bytes@ =~= zeros(INODE_BYTES as nat));
    put_u16(&mut fresh.bytes, INODE_MODE, NEW_DIRECTORY_MODE);
    put_u16(&mut fresh.bytes, INODE_LINKS, 2);
    put_u32(&mut fresh.bytes, INODE_SIZE_LO, 4096);
    put_u32(&mut fresh.bytes, INODE_BLOCKS, 8);
    put_u32(&mut fresh.bytes, INODE_BLOCK, block);
    inode::store(fs, NodeId(number), &fresh)?;
    let mut content = [0u8; BLOCK_BYTES];
    let dot = [DOT; 1];
    let dots = [DOT; 2];
    directory::write_entry(&mut content, 0, 12, number, DIRECTORY_FILETYPE_DIRECTORY, &dot);
    directory::write_entry(
        &mut content,
        12,
        BLOCK_BYTES - 12,
        parent.0,
        DIRECTORY_FILETYPE_DIRECTORY,
        &dots,
    );
    assert(dot@ =~= seq![DOT]);
    assert(dots@ =~= seq![DOT, DOT]);
    assert(content@ =~= new_directory_block(number, parent.0));
    fs.write_through(block, &content)?;
    adjust_used_dirs(fs, true)?;
    adjust_parent_links(fs, parent, true)
}

/// Creates an empty directory.
pub(crate) fn create_dir<D: BlockDevice>(fs: &mut Ext2<D>, parent: NodeId, name: &Name) -> (r:
    Result<NodeId, Ext2Error>)
    requires
        old(fs).wf(),
    ensures
        final(fs).wf(),
        (Step { result: r, volume: final(fs).volume() }) == create_dir_step(
            old(fs).volume(),
            parent,
            name@,
        ),
{
    fs.require_writable()?;
    require_absent(fs, parent, name)?;
    let number: u32 = claim_inode(fs)?;
    let block: u32 = claim_block(fs)?;
    found_directory(fs, parent, number, block)?;
    directory::insert(fs, parent, name, NodeId(number), NodeKind::Directory)?;
    Ok(NodeId(number))
}

/// Clears a node's record and releases its blocks and its inode.
fn discard<D: BlockDevice>(
    fs: &mut Ext2<D>,
    node: NodeId,
    image: &Inode,
) -> (r: Result<(), Ext2Error>)
    requires
        old(fs).wf(),
    ensures
        final(fs).wf(),
        (Step { result: r, volume: final(fs).volume() }) == discard_step(
            old(fs).volume(),
            node,
            image.bytes@,
        ),
{
    proof {
        reveal(discard_step);
    }
    let mut table = [0u32; TABLE_LEN];
    let indirect: u32 = load_layout(fs, image, &mut table)?;
    let mut bare = image.copy();
    let none = [0u32; TABLE_LEN];
    assert(none@ =~= Seq::new(TABLE_LEN as nat, |i: int| 0u32));
    publish(&mut bare, 0, &none, 0);
    put_u16(&mut bare.bytes, INODE_LINKS, 0);
    put_u16(&mut bare.bytes, INODE_MODE, 0);
    inode::store(fs, node, &bare)?;
    release_blocks(fs, &table, 0, TABLE_LEN as u32)?;
    if indirect != 0 {
        release_block(fs, indirect)?;
    }
    release_inode(fs, node.0)
}

/// Removes an entry, which must name `child`.
fn detach<D: BlockDevice>(
    fs: &mut Ext2<D>,
    parent: NodeId,
    name: &Name,
    child: NodeId,
) -> (r: Result<
    (),
    Ext2Error,
>)
    requires
        old(fs).wf(),
    ensures
        final(fs).wf(),
        (Step { result: r, volume: final(fs).volume() }) == detach_step(
            old(fs).volume(),
            parent,
            name@,
            child,
        ),
{
    let removed = directory::remove(fs, parent, name)?;
    if removed != child {
        return Err(Ext2Error::CorruptMetadata { field: "directory_inode" });
    }
    Ok(())
}

/// Removes a file.
pub(crate) fn unlink_file<D: BlockDevice>(fs: &mut Ext2<D>, parent: NodeId, name: &Name) -> (r:
    Result<(), Ext2Error>)
    requires
        old(fs).wf(),
    ensures
        final(fs).wf(),
        (Step { result: r, volume: final(fs).volume() }) == unlink_file_step(
            old(fs).volume(),
            parent,
            name@,
        ),
{
    fs.require_writable()?;
    let child = directory::lookup(fs, parent, name)?;
    let image = inode::load(fs, child)?;
    let metadata = image.metadata()?;
    if metadata.kind != NodeKind::Regular {
        return Err(Ext2Error::WrongNodeKind);
    }
    detach(fs, parent, name, child)?;
    discard(fs, child, &image)
}

/// Tests that a node is a directory without named entries, and gives its record.
fn require_empty<D: BlockDevice>(fs: &mut Ext2<D>, node: NodeId, heap: &mut Heap) -> (r: Result<
    Inode,
    Ext2Error,
>)
    requires
        old(fs).wf(),
        !old(heap).refused(),
    ensures
        final(fs).wf(),
        if final(heap).refused() {
            &&& r is Err && r->Err_0 == Ext2Error::Allocation
            &&& only_read(old(fs).volume(), final(fs).volume())
            &&& short_test(old(fs).volume(), node, final(fs).volume())
            &&& require_empty_step(old(fs).volume(), node).result is Err
        } else {
            (Step {
                result: match r {
                    Ok(inode) => Ok(inode.bytes@),
                    Err(e) => Err(e),
                },
                volume: final(fs).volume(),
            }) == require_empty_step(old(fs).volume(), node)
        },
{
    proof {
        reveal(require_empty_step);
    }
    let image = inode::load(fs, node)?;
    let metadata = image.metadata()?;
    if metadata.kind != NodeKind::Directory {
        return Err(Ext2Error::WrongNodeKind);
    }
    let ghost listing = directory::read_dir_step(fs.volume(), node).result;
    assert(listing is Ok && listing->Ok_0.len() == 0 ==> listing->Ok_0 =~= Seq::empty());
    let entries = directory::read_dir(fs, node, heap)?;
    if entries.len() > 0 {
        return Err(Ext2Error::DirectoryNotEmpty);
    }
    Ok(image)
}

/// Removes an empty directory.
#[verifier::rlimit(40)]
pub(crate) fn remove_dir<D: BlockDevice>(
    fs: &mut Ext2<D>,
    parent: NodeId,
    name: &Name,
    heap: &mut Heap,
) -> (r: Result<(), Ext2Error>)
    requires
        old(fs).wf(),
        !old(heap).refused(),
    ensures
        final(fs).wf(),
        removed_dir(
            old(fs).volume(),
            parent,
            name@,
            final(heap).refused(),
            r,
            final(fs).volume(),
        ),
{
    fs.require_writable()?;
    let child = directory::lookup(fs, parent, name)?;
    if child.0 == 2 {
        return Err(Ext2Error::WrongNodeKind);
    }
    let image = require_empty(fs, child, heap)?;
    drop_directory(fs, parent, name, child, &image)
}

/// Removes an empty directory's entry, its data and its inode, and uncounts it.
fn drop_directory<D: BlockDevice>(
    fs: &mut Ext2<D>,
    parent: NodeId,
    name: &Name,
    child: NodeId,
    image: &Inode,
) -> (r: Result<(), Ext2Error>)
    requires
        old(fs).wf(),
    ensures
        final(fs).wf(),
        (Step { result: r, volume: final(fs).volume() }) == drop_directory_step(
            old(fs).volume(),
            parent,
            name@,
            child,
            image.bytes@,
        ),
{
    proof {
        reveal(drop_directory_step);
    }
    detach(fs, parent, name, child)?;
    discard(fs, child, image)?;
    adjust_used_dirs(fs, false)?;
    adjust_parent_links(fs, parent, false)
}

} // verus!
