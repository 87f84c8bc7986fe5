//! A write succeeds where enough blocks are free and the device carries out every request.
use vstd::prelude::*;

use crate::bytes::{le16, le32, lemma_le16_written, lemma_le32_written, splice, zeros};
use crate::fs::{NodeId, NodeKind};

use super::allocator::{
    adjust_counts_step, block_counter, claim_block_step, counted, first_free_block, free_block,
    lemma_with_mark, mark_step, marked, with_mark, Counter, GROUP_DESCRIPTOR_BLOCK,
};
use super::consistency::{consistent, law_writing_keeps_the_file_system_consistent};
use super::contents::{
    bitmap_of, contents, file_layout, file_len, file_record, healthy_file,
    law_claim_takes_a_free_block, law_read_gives_the_contents, law_write_changes_the_contents,
    lemma_adjust, lemma_claim_missing, lemma_ensure_indirect, lemma_fill, lemma_first_free,
    lemma_same_blocks, lemma_write, lemma_write_at, lemma_written_without_holes, no_holes, ownable,
    owns, sound,
};
use super::directory::blocks_for;
use super::inode::{
    lesser, load_block_step, load_step, metadata_step, read_at_step, read_from, record_start,
    store_step, table_block, valid_node, DIRECT_BLOCKS, MAX_FILE_BYTES,
};
use super::mutation::{
    claim_missing, ensure_indirect_step, fill_from, fill_step, greater, indirect_bytes,
    indirect_gap, layout_step, published, write_at_step, write_indirect_step, write_step, Layout,
    TABLE_LEN,
};
use super::on_disk::{BLOCK_BYTES, GROUP_DESCRIPTOR_USED_DIRS};
use super::tree::{apart, in_use};
use super::validate::Geometry;
use super::volume::{answering, Volume};
use super::{Ext2Error, MountHealth, PROFILE_BLOCKS, SUPERBLOCK_BLOCK};

verus! {

/// The number of blocks before `n` that can be claimed.
pub open spec fn free_among(bitmap: Seq<u8>, geometry: Geometry, n: int) -> int
    decreases n,
{
    if n <= 0 {
        0
    } else {
        free_among(bitmap, geometry, n - 1) + if free_block(bitmap, geometry, n - 1) {
            1int
        } else {
            0
        }
    }
}

/// At least `n` blocks can be claimed, and the file system's own counts of free blocks agree.
pub open spec fn spare(v: Volume, n: int) -> bool {
    &&& n <= free_among(bitmap_of(v), v.geometry, PROFILE_BLOCKS as int)
    &&& n <= le32(v.blocks[0], block_counter().super_offset as int)
    &&& n <= le16(v.blocks[1], block_counter().group_offset as int)
}

/// The file system's own count of directories.
pub open spec fn used_dirs(v: Volume) -> int {
    le16(v.blocks[1], GROUP_DESCRIPTOR_USED_DIRS as int) as int
}

/// The number of logical blocks from `from` to `to` that have no block.
pub open spec fn missing(data: Seq<u32>, from: int, to: int) -> int
    decreases to - from,
{
    if from >= to {
        0
    } else {
        missing(data, from + 1, to) + if data[from] == 0 {
            1int
        } else {
            0
        }
    }
}

/// The number of blocks that a file has to gain to be `size` bytes long without holes.
pub open spec fn wanted(layout: Layout, size: int) -> int {
    missing(layout.data, 0, blocks_for(size)) + if blocks_for(size) > DIRECT_BLOCKS
        && layout.indirect == 0 {
        1int
    } else {
        0
    }
}

/// Two file systems have the same marks of used blocks and the same counts of free ones.
pub open spec fn same_counts(v: Volume, w: Volume) -> bool {
    &&& w.geometry == v.geometry
    &&& w.blocks[0] == v.blocks[0]
    &&& w.blocks[1] == v.blocks[1]
    &&& bitmap_of(w) == bitmap_of(v)
}

/// A file system takes changes, and its device carries out every request.
pub open spec fn ready(v: Volume) -> bool {
    v.wf() && answering(v) && v.health == MountHealth::Writable
}

pub(crate) proof fn lemma_answered(v: Volume, b: u32, bytes: Seq<u8>)
    requires
        answering(v),
        b < PROFILE_BLOCKS,
    ensures
        v.read(b).result == Ok::<_, Ext2Error>(v.blocks[b as int]),
        v.read(b).volume == v.ticked(),
        v.read_for_update(b) == v.read(b),
        answering(v.ticked()),
        v.write(b, bytes).result is Ok,
        answering(v.write(b, bytes).volume),
        v.flush().result is Ok,
        answering(v.flush().volume),
        v.flush().volume.blocks == v.blocks,
        v.flush().volume.health == v.health,
        v.flush().volume.geometry == v.geometry,
        v.write_through(b, bytes).result is Ok,
        answering(v.write_through(b, bytes).volume),
{
}

proof fn lemma_free_among(bitmap: Seq<u8>, geometry: Geometry, b: int, n: int)
    requires
        0 <= b < 8 * bitmap.len(),
        0 <= n <= 8 * bitmap.len(),
        free_block(bitmap, geometry, b),
    ensures
        free_among(with_mark(bitmap, b, true), geometry, n) == free_among(bitmap, geometry, n)
            - if b < n {
            1int
        } else {
            0
        },
    decreases n,
{
    if n > 0 {
        lemma_free_among(bitmap, geometry, b, n - 1);
        lemma_with_mark(bitmap, b, true, n - 1);
    }
}

/// A free block is found where there is one.
proof fn lemma_found(bitmap: Seq<u8>, geometry: Geometry, from: int, n: int)
    requires
        0 <= from <= n <= PROFILE_BLOCKS,
        first_free_block(bitmap, geometry, from) is None,
    ensures
        free_among(bitmap, geometry, n) == free_among(bitmap, geometry, from),
    decreases n - from,
{
    if from < n {
        lemma_found(bitmap, geometry, from + 1, n);
    }
}

/// A count changes by one where it stays in range.
pub(crate) proof fn lemma_counts(v: Volume, counter: Counter, decrement: bool)
    requires
        ready(v),
        counter.wf(),
        counted(v.blocks[0], v.blocks[1], counter, decrement) is Some,
    ensures
        ({
            let s = adjust_counts_step(v, counter, decrement);
            let (superblock, group) = counted(v.blocks[0], v.blocks[1], counter, decrement)->0;
            &&& s.result is Ok
            &&& ready(s.volume)
            &&& s.volume.blocks[0] == superblock
            &&& s.volume.blocks[1] == group
            &&& s.volume.geometry == v.geometry
            &&& forall|c: int|
                2 <= c < PROFILE_BLOCKS ==> #[trigger] s.volume.blocks[c] == v.blocks[c]
        }),
{
    reveal(adjust_counts_step);
    lemma_adjust(v, counter, decrement);
    let u = v.ticked().ticked();
    lemma_answered(v, 0, Seq::empty());
    lemma_answered(v.ticked(), 1, Seq::empty());
    let (superblock, group) = counted(v.blocks[0], v.blocks[1], counter, decrement)->0;
    lemma_answered(u, 0, superblock);
    let t = u.write(SUPERBLOCK_BLOCK, superblock).volume;
    lemma_answered(t, 1, group);
    let w = t.write(GROUP_DESCRIPTOR_BLOCK, group).volume;
    assert(adjust_counts_step(v, counter, decrement).volume == w);
    assert(w.blocks[0] == superblock);
    assert(w.blocks[1] == group);
}

/// A claim succeeds where a block can be claimed, and takes one.
pub(crate) proof fn lemma_claim(v: Volume, n: int)
    requires
        ready(v),
        n >= 1,
        spare(v, n),
    ensures
        claim_block_step(v).result is Ok,
        ready(claim_block_step(v).volume),
        spare(claim_block_step(v).volume, n - 1),
        used_dirs(claim_block_step(v).volume) == used_dirs(v),
{
    reveal(claim_block_step);
    reveal(mark_step);
    let bitmap = bitmap_of(v);
    let bb = v.geometry.block_bitmap;
    law_claim_takes_a_free_block(v);
    lemma_answered(v, bb, Seq::empty());
    if first_free_block(bitmap, v.geometry, 0) is None {
        lemma_found(bitmap, v.geometry, 0, PROFILE_BLOCKS as int);
    }
    lemma_first_free(bitmap, v.geometry, 0);
    let b = first_free_block(bitmap, v.geometry, 0)->0;
    let u = v.ticked();
    let changed = with_mark(bitmap, b as int, true);
    lemma_write(u, bb, changed);
    lemma_answered(u, bb, changed);
    let t = u.write(bb, changed).volume;
    assert(t.blocks[0] == v.blocks[0] && t.blocks[1] == v.blocks[1]);
    lemma_counts(t, block_counter(), true);
    let counter = block_counter();
    let total = le32(v.blocks[0], counter.super_offset as int) - 1;
    let in_group = le16(v.blocks[1], counter.group_offset as int) - 1;
    lemma_le32_written(v.blocks[0], counter.super_offset as int, total as u32);
    lemma_le16_written(v.blocks[1], counter.group_offset as int, in_group as u16);
    let x = adjust_counts_step(t, block_counter(), true).volume;
    lemma_answered(x, 0, Seq::empty());
    let w = claim_block_step(v).volume;
    assert(w.blocks == x.blocks);
    let at = GROUP_DESCRIPTOR_USED_DIRS as int;
    assert(forall|i: int| at <= i < at + 2 ==> #[trigger] w.blocks[1][i] == v.blocks[1][i]);
    lemma_free_among(bitmap, v.geometry, b as int, PROFILE_BLOCKS as int);
}

proof fn lemma_missing_later(data: Seq<u32>, l: int, b: u32, from: int, to: int)
    requires
        0 <= l < from,
        to <= data.len(),
    ensures
        missing(data.update(l, b), from, to) == missing(data, from, to),
    decreases to - from,
{
    if from < to {
        lemma_missing_later(data, l, b, from + 1, to);
    }
}

pub(crate) proof fn lemma_missing_some(data: Seq<u32>, from: int, to: int)
    ensures
        missing(data, from, to) >= 0,
    decreases to - from,
{
    if from < to {
        lemma_missing_some(data, from + 1, to);
    }
}

/// Writing a block that is no part of the file system's own records keeps the counts.
pub(crate) proof fn lemma_write_aside(v: Volume, b: u32, bytes: Seq<u8>)
    requires
        ready(v),
        b < PROFILE_BLOCKS,
        !v.geometry.structural(b),
        bytes.len() == BLOCK_BYTES,
    ensures
        v.write_through(b, bytes).result is Ok,
        ready(v.write_through(b, bytes).volume),
        same_counts(v, v.write_through(b, bytes).volume),
{
    lemma_answered(v, b, bytes);
    lemma_write(v, b, bytes);
    let w = v.write_through(b, bytes).volume;
    assert(w.blocks == v.blocks.update(b as int, bytes));
}

pub(crate) proof fn lemma_claims(
    v: Volume,
    data: Seq<u32>,
    logical: int,
    needed: int,
    zeroed: bool,
)
    requires
        ready(v),
        0 <= logical <= needed <= data.len(),
        spare(v, missing(data, logical, needed)),
    ensures
        claim_missing(v, data, logical, needed, zeroed).result is Ok,
        ready(claim_missing(v, data, logical, needed, zeroed).volume),
    decreases needed - logical,
{
    if logical < needed {
        if data[logical] != 0 {
            lemma_claims(v, data, logical + 1, needed, zeroed);
        } else {
            let n = missing(data, logical, needed);
            lemma_missing_some(data, logical + 1, needed);
            lemma_claim(v, n);
            law_claim_takes_a_free_block(v);
            let claimed = claim_block_step(v);
            let b = claimed.result->Ok_0;
            let blank = zeros(BLOCK_BYTES as nat);
            lemma_write_aside(claimed.volume, b, blank);
            let ready = if zeroed {
                claimed.volume.write_through(b, blank)
            } else {
                claimed.volume.done(())
            };
            lemma_missing_later(data, logical, b, logical + 1, needed);
            lemma_claims(ready.volume, data.update(logical, b), logical + 1, needed, zeroed);
        }
    }
}

proof fn lemma_fills(
    v: Volume,
    layout: Layout,
    before: Seq<u32>,
    offset: int,
    src: Seq<u8>,
    logical: int,
    needed: int,
)
    requires
        answering(v),
        0 <= logical <= needed <= TABLE_LEN,
        forall|i: int| logical <= i < needed ==> #[trigger] layout.data[i] < PROFILE_BLOCKS,
    ensures
        ({
            let s = fill_from(v, before, layout.data, offset, src, logical, needed);
            s.result is Ok && answering(s.volume)
        }),
    decreases needed - logical,
{
    if logical < needed {
        let target = layout.data[logical];
        let s = fill_step(v, before, layout.data, offset, src, logical);
        assert(target < PROFILE_BLOCKS);
        lemma_answered(v, target, Seq::empty());
        assert(s.result is Ok && answering(s.volume));
        lemma_fills(s.volume, layout, before, offset, src, logical + 1, needed);
    }
}

pub(crate) proof fn lemma_roots(v: Volume, layout: Layout, needed: int, n: int)
    requires
        ready(v),
        spare(
            v,
            n + if needed > DIRECT_BLOCKS && layout.indirect == 0 {
                1int
            } else {
                0
            },
        ),
        n >= 0,
    ensures
        ({
            let s = ensure_indirect_step(v, layout, needed);
            s.result is Ok && ready(s.volume) && spare(s.volume, n)
        }),
{
    if needed > DIRECT_BLOCKS && layout.indirect == 0 {
        lemma_claim(v, n + 1);
        law_claim_takes_a_free_block(v);
        let claimed = claim_block_step(v);
        let b = claimed.result->Ok_0;
        lemma_write_aside(claimed.volume, b, zeros(BLOCK_BYTES as nat));
    }
}

pub(crate) proof fn lemma_stores(v: Volume, node: NodeId, record: Seq<u8>)
    requires
        answering(v),
        v.geometry.wf(),
        valid_node(node),
    ensures
        store_step(v, node, record).result is Ok,
        answering(store_step(v, node, record).volume),
{
    reveal(store_step);
    let t = table_block(v.geometry, node);
    lemma_answered(v, t, Seq::empty());
    lemma_answered(
        v.ticked(),
        t,
        splice(v.blocks[t as int], record_start(node), record),
    );
}

#[verifier::rlimit(60)]
proof fn lemma_write_succeeds(v: Volume, node: NodeId, offset: int, src: Seq<u8>)
    requires
        healthy_file(v, node),
        ready(v),
        src.len() > 0,
        0 <= offset,
        offset + src.len() <= MAX_FILE_BYTES,
        spare(
            v,
            wanted(file_layout(v, node), greater(file_len(v, node), offset + src.len())),
        ),
    ensures
        ({
            let s = write_step(v, node, file_record(v, node), offset, src);
            s.result is Ok && answering(s.volume)
        }),
{
    reveal(write_step);
    let record = file_record(v, node);
    let size = greater(file_len(v, node), offset + src.len());
    let needed = blocks_for(size);
    let before = file_layout(v, node);
    let n = missing(before.data, 0, needed);
    lemma_missing_some(before.data, 0, needed);
    if before.indirect != 0 {
        lemma_answered(v, before.indirect, Seq::empty());
    }
    let s1 = layout_step(v, record);
    let v1 = s1.volume;
    assert(s1.result == Ok::<_, Ext2Error>(before));
    assert(ready(v1) && v1.blocks == v.blocks && v1.geometry == v.geometry);
    assert(sound(v1, before)) by {
        assert forall|i: int| 0 <= i < TABLE_LEN && #[trigger] before.data[i] != 0 implies ownable(
            v1,
            before.data[i],
        ) && before.data[i] != before.indirect by {
            assert(ownable(v, before.data[i]));
        }
    }
    lemma_roots(v1, before, needed, n);
    lemma_ensure_indirect(v1, before, needed);
    let s2 = ensure_indirect_step(v1, before, needed);
    let rooted = s2.result->Ok_0;
    let v2 = s2.volume;
    lemma_claims(v2, rooted.data, 0, needed, false);
    lemma_claim_missing(v2, rooted, 0, needed, false);
    let s3 = claim_missing(v2, rooted.data, 0, needed, false);
    let data = s3.result->Ok_0;
    let v3 = s3.volume;
    let after = Layout { indirect: rooted.indirect, data };
    assert forall|i: int| 0 <= i < needed implies #[trigger] after.data[i] < PROFILE_BLOCKS by {
        assert(ownable(v3, after.data[i]));
    }
    lemma_fills(v3, after, before.data, offset, src, 0, needed);
    lemma_fill(v3, after, before.data, offset, src, 0, needed);
    let s4 = fill_from(v3, before.data, data, offset, src, 0, needed);
    let v4 = s4.volume;
    let dirty = indirect_gap(before.data, needed);
    if dirty {
        assert(needed > DIRECT_BLOCKS);
        assert(ownable(v3, after.indirect));
        lemma_answered(v4, after.indirect, indirect_bytes(data));
    }
    let s5 = write_indirect_step(v4, after, dirty);
    assert(s5.result is Ok && answering(s5.volume));
    assert(s5.volume.geometry == v.geometry);
    lemma_stores(s5.volume, node, published(record, after, size));
}

/// Where the device carries out every request, none of the errors of a read is the device's.
proof fn lemma_read_from_answered(
    v: Volume,
    record: Seq<u8>,
    offset: int,
    copied: int,
    length: int,
    dst: Seq<u8>,
)
    requires
        answering(v),
    ensures
        read_from(v, record, offset, copied, length, dst).0.result matches Err(e) ==> !(e is Block),
    decreases length - copied,
{
    if copied < length {
        let position = offset + copied;
        let within = position % (BLOCK_BYTES as int);
        let count = lesser(length - copied, BLOCK_BYTES - within);
        let s = load_block_step(v, record, position / (BLOCK_BYTES as int));
        if let Ok(data) = s.result {
            if count > 0 {
                let next = splice(dst, copied, data.subrange(within, within + count));
                lemma_read_from_answered(s.volume, record, offset, copied + count, length, next);
            }
        }
    }
}

/// Where the device carries out every request, reading within a file gives what it holds there.
pub proof fn law_a_read_succeeds(v: Volume, node: NodeId, offset: u64, dst: Seq<u8>)
    requires
        healthy_file(v, node),
        answering(v),
        0 < dst.len() <= usize::MAX,
        offset + dst.len() <= file_len(v, node),
        no_holes(v, node, offset as int, offset + dst.len()),
    ensures
        ({
            let (s, d) = read_at_step(v, node, offset, dst);
            &&& s.result == Ok::<_, Ext2Error>(dst.len() as usize)
            &&& d == contents(v, node).subrange(offset as int, offset + dst.len())
        }),
{
    law_read_gives_the_contents(v, node, offset, dst);
    let t = load_step(v, node);
    lemma_read_from_answered(
        t.volume,
        file_record(v, node),
        offset as int,
        0,
        dst.len() as int,
        dst,
    );
    let (s, d) = read_at_step(v, node, offset, dst);
    assert(s.result is Ok);
    assert(d =~= contents(v, node).subrange(offset as int, offset + dst.len()));
}

/// A write to a regular file succeeds where enough blocks are free for a file without holes and
/// the device carries out every request. The file then has the written bytes in their place, all
/// of its other bytes as before, and no hole: reading it back over its whole length succeeds.
pub proof fn law_a_write_succeeds(v: Volume, node: NodeId, offset: u64, src: Seq<u8>, dst: Seq<u8>)
    requires
        healthy_file(v, node),
        ready(v),
        src.len() > 0,
        offset + src.len() <= MAX_FILE_BYTES,
        spare(
            v,
            wanted(file_layout(v, node), greater(file_len(v, node), offset + src.len())),
        ),
        dst.len() == greater(file_len(v, node), offset + src.len()),
    ensures
        ({
            let s = write_at_step(v, node, offset, src);
            let w = s.volume;
            let before = contents(v, node);
            let after = contents(w, node);
            let end = offset + src.len();
            &&& s.result is Ok
            &&& healthy_file(w, node)
            &&& metadata_step(w, node).result matches Ok(metadata) && metadata.len == greater(
                before.len() as int,
                end,
            )
            &&& no_holes(w, node, 0, file_len(w, node))
            &&& read_at_step(w, node, 0, dst).0.result == Ok::<_, Ext2Error>(dst.len() as usize)
            &&& read_at_step(w, node, 0, dst).1 == after
            &&& offset <= before.len() ==> after == before.take(offset as int) + src
                + before.skip(lesser(end, before.len() as int))
        }),
{
    lemma_same_blocks(v, v.ticked(), node);
    lemma_answered(v, table_block(v.geometry, node), Seq::empty());
    lemma_write_succeeds(v.ticked(), node, offset as int, src);
    let s = write_at_step(v, node, offset, src);
    let w = s.volume;
    assert(s.result is Ok && answering(w));
    law_write_changes_the_contents(v, node, offset, src);
    lemma_written_without_holes(v, node, offset, src);
    lemma_answered(w, table_block(w.geometry, node), Seq::empty());
    law_a_read_succeeds(w, node, 0, dst);
    let before = contents(v, node);
    let after = contents(w, node);
    let end = offset + src.len();
    assert(after.subrange(0, after.len() as int) =~= after);
    if offset <= before.len() {
        let expected = before.take(offset as int) + src + before.skip(
            lesser(end, before.len() as int),
        );
        assert(after =~= expected);
    }
}

/// A write that succeeds leaves the contents of every other node of a consistent file system as
/// they were, and the file system consistent.
pub proof fn law_a_write_leaves_other_nodes(
    v: Volume,
    node: NodeId,
    offset: u64,
    src: Seq<u8>,
    other: NodeId,
    kind: NodeKind,
)
    requires
        consistent(v),
        in_use(v, node, NodeKind::Regular),
        in_use(v, other, kind),
        other != node,
        write_at_step(v, node, offset, src).result is Ok,
    ensures
        ({
            let w = write_at_step(v, node, offset, src).volume;
            &&& consistent(w)
            &&& file_record(w, other) == file_record(v, other)
            &&& file_layout(w, other) == file_layout(v, other)
            &&& contents(w, other) == contents(v, other)
        }),
{
    let w = write_at_step(v, node, offset, src).volume;
    let u = v.ticked();
    assert(healthy_file(v, node));
    law_writing_keeps_the_file_system_consistent(v, node, offset, src, 0);
    lemma_write_at(v, node, offset, src);
    lemma_same_blocks(v, u, node);
    if src.len() > 0 {
        let theirs = file_layout(v, other);
        assert(sound(v, theirs));
        assert(apart(file_layout(v, other), file_layout(v, node)));
        assert forall|b: int| #[trigger] owns(theirs, b) implies w.blocks[b] == v.blocks[b] by {
            assert(0 <= b <= u32::MAX && ownable(v, b as u32)) by {
                if b != theirs.indirect {
                    let i = choose|i: int|
                        0 <= i < theirs.data.len() && #[trigger] theirs.data[i] == b;
                    assert(theirs.data[i] == b);
                }
            }
            assert(marked(bitmap_of(u), b));
            if owns(file_layout(w, node), b) {
                assert(!owns(file_layout(u, node), b));
            }
            assert(v.geometry.structural(table_block(v.geometry, node)));
        }
        if theirs.indirect != 0 {
            assert(owns(theirs, theirs.indirect as int));
        }
        assert(file_record(u, other) == file_record(v, other));
        assert(file_layout(w, other) == theirs);
        assert forall|i: int| 0 <= i < contents(v, other).len() implies contents(w, other)[i]
            == contents(v, other)[i] by {
            let l = i / (BLOCK_BYTES as int);
            assert(0 <= l < TABLE_LEN);
            if theirs.data[l] != 0 {
                assert(owns(theirs, theirs.data[l] as int));
            }
        }
        assert(contents(w, other) =~= contents(v, other));
    }
}

} // verus!
