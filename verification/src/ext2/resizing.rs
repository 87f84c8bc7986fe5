//! A change of length succeeds where enough blocks are free and the device carries out every
//! request.
use vstd::prelude::*;

use crate::bytes::{le16, le32, lemma_le16_written, lemma_le32_written, zeros};
use crate::fs::NodeId;

use super::allocator::{
    adjust_counts_step, block_counter, inode_counter, mark_step, release_block_step, with_mark,
};
use super::contents::{
    bitmap_of, file_layout, file_len, file_record, healthy_file, law_release_frees_the_block,
    law_truncate_sets_the_length, lemma_claim_missing, lemma_ensure_indirect, lemma_published,
    lemma_same_blocks, lemma_store, lemma_write, ownable, resized_file, sound,
};
use super::directory::blocks_for;
use super::inode::{store_step, table_block, valid_node, DIRECT_BLOCKS, INODE_BYTES, MAX_FILE_BYTES};
use super::mutation::{
    claim_missing, ensure_indirect_step, grow_step, indirect_bytes, indirect_gap, layout_step,
    published, release_all, shrink_step, trimmed, truncate_step, write_indirect_step, Layout,
    TABLE_LEN,
};
use super::on_disk::GROUP_DESCRIPTOR_USED_DIRS;
use super::space::{
    lemma_answered, lemma_claims, lemma_counts, lemma_missing_some, lemma_roots, lemma_stores,
    lemma_write_aside, missing, ready, same_counts, spare, wanted,
};
use super::volume::{answering, Volume};
use super::{Ext2Error, PROFILE_BLOCKS};

verus! {

/// The file system's own counts of free blocks can grow by `n`.
pub open spec fn countable(v: Volume, n: int) -> bool {
    &&& le32(v.blocks[0], block_counter().super_offset as int) + n <= u32::MAX
    &&& le16(v.blocks[1], block_counter().group_offset as int) + n <= u16::MAX
}

/// The file system's own counts of free nodes and of directories.
pub open spec fn node_counts(v: Volume) -> (u32, u16, u16) {
    (
        le32(v.blocks[0], inode_counter().super_offset as int),
        le16(v.blocks[1], inode_counter().group_offset as int),
        le16(v.blocks[1], GROUP_DESCRIPTOR_USED_DIRS as int),
    )
}

/// A block of a file can be released.
pub(crate) proof fn lemma_release(v: Volume, b: u32, n: int)
    requires
        ready(v),
        b < PROFILE_BLOCKS,
        !v.geometry.structural(b),
        n >= 1,
        countable(v, n),
    ensures
        release_block_step(v, b).result is Ok,
        ready(release_block_step(v, b).volume),
        countable(release_block_step(v, b).volume, n - 1),
        release_block_step(v, b).volume.geometry == v.geometry,
        node_counts(release_block_step(v, b).volume) == node_counts(v),
{
    reveal(release_block_step);
    reveal(mark_step);
    let bb = v.geometry.block_bitmap;
    law_release_frees_the_block(v, b);
    lemma_answered(v, bb, Seq::empty());
    let u = v.ticked();
    let changed = with_mark(bitmap_of(v), b as int, false);
    lemma_write(u, bb, changed);
    lemma_answered(u, bb, changed);
    let t = u.write(bb, changed).volume;
    assert(t.blocks[0] == v.blocks[0] && t.blocks[1] == v.blocks[1]);
    let counter = block_counter();
    lemma_counts(t, counter, false);
    let total = le32(v.blocks[0], counter.super_offset as int) + 1;
    let in_group = le16(v.blocks[1], counter.group_offset as int) + 1;
    lemma_le32_written(v.blocks[0], counter.super_offset as int, total as u32);
    lemma_le16_written(v.blocks[1], counter.group_offset as int, in_group as u16);
    let x = adjust_counts_step(t, block_counter(), false).volume;
    lemma_answered(x, 0, Seq::empty());
    let w = release_block_step(v, b).volume;
    assert(w.blocks == x.blocks);
    let at = inode_counter().super_offset as int;
    assert(forall|i: int| at <= i < at + 4 ==> #[trigger] w.blocks[0][i] == v.blocks[0][i]);
    let at = inode_counter().group_offset as int;
    assert(forall|i: int| at <= i < at + 4 ==> #[trigger] w.blocks[1][i] == v.blocks[1][i]);
}

pub(crate) proof fn lemma_releases(v: Volume, data: Seq<u32>, from: int, to: int, n: int)
    requires
        ready(v),
        0 <= from,
        to <= data.len(),
        n >= to - from,
        n >= 0,
        countable(v, n),
        forall|i: int|
            from <= i < to && #[trigger] data[i] != 0 ==> data[i] < PROFILE_BLOCKS
                && !v.geometry.structural(data[i]),
    ensures
        ({
            let s = release_all(v, data, from, to);
            &&& s.result is Ok
            &&& ready(s.volume)
            &&& s.volume.geometry == v.geometry
            &&& node_counts(s.volume) == node_counts(v)
            &&& from <= to ==> countable(s.volume, n - (to - from))
            &&& from > to ==> countable(s.volume, n)
        }),
    decreases to - from,
{
    if from < to {
        if data[from] == 0 {
            lemma_releases(v, data, from + 1, to, n - 1);
        } else {
            lemma_release(v, data[from], n);
            let w = release_block_step(v, data[from]).volume;
            lemma_releases(w, data, from + 1, to, n - 1);
        }
    }
}

/// Storing a record keeps the counts.
pub(crate) proof fn lemma_store_aside(v: Volume, node: NodeId, record: Seq<u8>)
    requires
        ready(v),
        valid_node(node),
        record.len() == INODE_BYTES,
    ensures
        store_step(v, node, record).result is Ok,
        ready(store_step(v, node, record).volume),
        same_counts(v, store_step(v, node, record).volume),
{
    lemma_stores(v, node, record);
    lemma_store(v, node, record);
}

/// The layout of a healthy file can be loaded.
proof fn lemma_layout(v: Volume, node: NodeId)
    requires
        healthy_file(v, node),
        ready(v),
    ensures
        ({
            let s = layout_step(v, file_record(v, node));
            &&& s.result == Ok::<_, Ext2Error>(file_layout(v, node))
            &&& ready(s.volume)
            &&& s.volume.blocks == v.blocks
            &&& s.volume.geometry == v.geometry
            &&& sound(s.volume, file_layout(v, node))
        }),
{
    let before = file_layout(v, node);
    if before.indirect != 0 {
        assert(ownable(v, before.indirect));
        lemma_answered(v, before.indirect, Seq::empty());
    }
    let u = layout_step(v, file_record(v, node)).volume;
    assert forall|i: int| 0 <= i < TABLE_LEN && #[trigger] before.data[i] != 0 implies ownable(
        u,
        before.data[i],
    ) && before.data[i] != before.indirect by {
        assert(ownable(v, before.data[i]));
    }
}

#[verifier::rlimit(60)]
proof fn lemma_grow_succeeds(v: Volume, node: NodeId, len: int)
    requires
        healthy_file(v, node),
        ready(v),
        0 <= len <= MAX_FILE_BYTES,
        spare(v, wanted(file_layout(v, node), len)),
    ensures
        grow_step(v, node, file_record(v, node), len).result is Ok,
{
    reveal(grow_step);
    let record = file_record(v, node);
    let needed = blocks_for(len);
    let before = file_layout(v, node);
    let n = missing(before.data, 0, needed);
    lemma_missing_some(before.data, 0, needed);
    lemma_layout(v, node);
    let v1 = layout_step(v, record).volume;
    lemma_roots(v1, before, needed, n);
    lemma_ensure_indirect(v1, before, needed);
    let s2 = ensure_indirect_step(v1, before, needed);
    let rooted = s2.result->Ok_0;
    let v2 = s2.volume;
    lemma_claims(v2, rooted.data, 0, needed, true);
    lemma_claim_missing(v2, rooted, 0, needed, true);
    let s3 = claim_missing(v2, rooted.data, 0, needed, true);
    let data = s3.result->Ok_0;
    let v3 = s3.volume;
    let after = Layout { indirect: rooted.indirect, data };
    let dirty = indirect_gap(before.data, needed);
    if dirty {
        assert(needed > DIRECT_BLOCKS);
        assert(ownable(v3, after.indirect));
        lemma_answered(v3, after.indirect, indirect_bytes(data));
    }
    let s4 = write_indirect_step(v3, after, dirty);
    assert(s4.result is Ok && answering(s4.volume));
    assert(s4.volume.geometry == v.geometry);
    lemma_stores(s4.volume, node, published(record, after, len));
}

proof fn lemma_shrink_succeeds(v: Volume, node: NodeId, len: int)
    requires
        healthy_file(v, node),
        ready(v),
        0 <= len < file_len(v, node),
        countable(v, TABLE_LEN + 1),
    ensures
        shrink_step(v, node, file_record(v, node), len).result is Ok,
{
    reveal(shrink_step);
    let record = file_record(v, node);
    let keep = blocks_for(len);
    let to = blocks_for(file_len(v, node));
    let layout = file_layout(v, node);
    let kept = trimmed(layout, keep);
    lemma_layout(v, node);
    let v1 = layout_step(v, record).volume;
    lemma_published(record, kept, len);
    lemma_store_aside(v1, node, published(record, kept, len));
    let v2 = store_step(v1, node, published(record, kept, len)).volume;
    if kept.indirect != 0 {
        assert(ownable(v1, layout.indirect));
        lemma_write_aside(v2, kept.indirect, indirect_bytes(kept.data));
    }
    let v3 = write_indirect_step(v2, kept, kept.indirect != 0).volume;
    assert(ready(v3) && v3.geometry == v.geometry && countable(v3, TABLE_LEN + 1));
    assert forall|i: int| keep <= i < to && #[trigger] layout.data[i] != 0 implies layout.data[i]
        < PROFILE_BLOCKS && !v3.geometry.structural(layout.data[i]) by {
        assert(ownable(v1, layout.data[i]));
    }
    lemma_releases(v3, layout.data, keep, to, TABLE_LEN + 1);
    let v4 = release_all(v3, layout.data, keep, to).volume;
    if keep <= DIRECT_BLOCKS && layout.indirect != 0 {
        assert(ownable(v1, layout.indirect));
        lemma_release(v4, layout.indirect, 1);
    }
}

/// A change of a regular file's length succeeds where enough blocks are free for what it gains,
/// the counts of free blocks have room for what it loses, and the device carries out every
/// request. The file has the new length then; it keeps what it held before that, and holds zeros
/// in the blocks that it gains.
pub proof fn law_a_change_of_length_succeeds(v: Volume, node: NodeId, len: u64)
    requires
        healthy_file(v, node),
        ready(v),
        len <= MAX_FILE_BYTES,
        len > file_len(v, node) ==> spare(v, wanted(file_layout(v, node), len as int)),
        len < file_len(v, node) ==> countable(v, TABLE_LEN + 1),
    ensures
        truncate_step(v, node, len).result is Ok,
        resized_file(v, node, len as int, truncate_step(v, node, len).volume),
        file_len(truncate_step(v, node, len).volume, node) == len,
{
    let u = v.ticked();
    lemma_same_blocks(v, u, node);
    lemma_answered(v, table_block(v.geometry, node), Seq::empty());
    if len > file_len(v, node) {
        lemma_grow_succeeds(u, node, len as int);
    } else if len < file_len(v, node) {
        lemma_shrink_succeeds(u, node, len as int);
    }
    law_truncate_sets_the_length(v, node, len);
}

} // verus!
