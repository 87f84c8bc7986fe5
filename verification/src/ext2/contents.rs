//! What files hold, and what changes keep of it.
use vstd::prelude::*;

use crate::bytes::{
    le16, le32, lemma_le16_rewritten, lemma_le16_written, lemma_le32_of, lemma_le32_rewritten,
    lemma_le32_written, splice, to_le32, zeros,
};
use crate::fs::{NodeId, NodeKind};

use super::allocator::{
    adjust_counts_step, block_counter, claim_block_step, claim_inode_step, counted,
    first_free_block, first_free_inode, free_block, inode_counter, lemma_with_mark, mark_step,
    marked, release_block_step, release_inode_step, with_mark, Counter, GROUP_DESCRIPTOR_BLOCK,
    PROFILE_INODES, RESERVED_INODES, SUPERBLOCK_BLOCK,
};
use super::directory::blocks_for;
use super::inode::{
    entry_of, lesser, load_block_step, load_step, metadata_of, pointer_of, read_at_step, read_from,
    record_in, record_start, store_step, supported, table_block, valid_node, DIRECT_BLOCKS,
    INODE_BYTES, MAX_FILE_BYTES,
};
use super::mutation::{
    claim_missing, ensure_indirect_step, fill_from, fill_step, greater, grow_step, indirect_bytes,
    indirect_gap, layout_of, layout_step, overlaid, overlaps, pointer_bytes, published, release_all,
    release_indirect_step, shrink_step, trimmed, truncate_step, write_at_step, write_indirect_step,
    write_step, Layout, TABLE_LEN,
};
use super::on_disk::{BLOCK_BYTES, INODE_BLOCK, INODE_SIZE_LO};
use super::validate::Geometry;
use super::volume::Volume;
use super::PROFILE_BLOCKS;

verus! {

/// The bitmap of used blocks.
pub open spec fn bitmap_of(v: Volume) -> Seq<u8> {
    v.blocks[v.geometry.block_bitmap as int]
}

/// Two file systems have the same shape, health and future.
pub open spec fn same_frame(v: Volume, w: Volume) -> bool {
    &&& w.geometry == v.geometry
    &&& w.answers == v.answers
    &&& w.health == v.health
    &&& w.wf() == v.wf()
}

/// The blocks where the file system keeps account of free blocks.
pub open spec fn accounting(v: Volume, b: int) -> bool {
    b == SUPERBLOCK_BLOCK || b == GROUP_DESCRIPTOR_BLOCK || b == v.geometry.block_bitmap
}

pub(crate) proof fn lemma_first_free(bitmap: Seq<u8>, geometry: Geometry, from: int)
    requires
        from >= 0,
    ensures
        first_free_block(bitmap, geometry, from) matches Some(b) ==> from <= b < PROFILE_BLOCKS
            && free_block(bitmap, geometry, b as int),
    decreases PROFILE_BLOCKS - from,
{
    if from < PROFILE_BLOCKS && !free_block(bitmap, geometry, from) {
        lemma_first_free(bitmap, geometry, from + 1);
    }
}

/// A write that succeeds replaces one block.
pub(crate) proof fn lemma_write(v: Volume, b: u32, bytes: Seq<u8>)
    requires
        v.wf(),
        bytes.len() == BLOCK_BYTES,
    ensures
        v.write(b, bytes).result is Ok ==> {
            let w = v.write(b, bytes).volume;
            &&& b < PROFILE_BLOCKS
            &&& same_frame(v, w)
            &&& w.blocks == v.blocks.update(b as int, bytes)
        },
        v.write_through(b, bytes).result is Ok ==> {
            let w = v.write_through(b, bytes).volume;
            &&& b < PROFILE_BLOCKS
            &&& same_frame(v, w)
            &&& w.blocks == v.blocks.update(b as int, bytes)
        },
{
}

/// A change of a count that succeeds touches the superblock and the group descriptor.
pub(crate) proof fn lemma_adjust(v: Volume, counter: Counter, decrement: bool)
    requires
        v.wf(),
        counter.wf(),
    ensures
        adjust_counts_step(v, counter, decrement).result is Ok ==> {
            let w = adjust_counts_step(v, counter, decrement).volume;
            &&& same_frame(v, w)
            &&& forall|c: int| 2 <= c < PROFILE_BLOCKS ==> #[trigger] w.blocks[c] == v.blocks[c]
        },
{
    reveal(adjust_counts_step);
    let s = v.read_for_update(SUPERBLOCK_BLOCK);
    let g = s.volume.read_for_update(GROUP_DESCRIPTOR_BLOCK);
    if s.result is Ok && g.result is Ok {
        let changed = counted(s.result->Ok_0, g.result->Ok_0, counter, decrement);
        if let Some((superblock, group)) = changed {
            lemma_write(g.volume, SUPERBLOCK_BLOCK, superblock);
            let t = g.volume.write(SUPERBLOCK_BLOCK, superblock);
            if t.result is Ok {
                lemma_write(t.volume, GROUP_DESCRIPTOR_BLOCK, group);
            }
        }
    }
}

/// A change of a bitmap that succeeds touches it, the superblock and the group descriptor.
pub(crate) proof fn lemma_mark(
    v: Volume,
    b: u32,
    bitmap: Seq<u8>,
    counter: Counter,
    decrement: bool,
)
    requires
        v.wf(),
        counter.wf(),
        b >= 2,
        bitmap.len() == BLOCK_BYTES,
    ensures
        mark_step(v, b, bitmap, counter, decrement).result is Ok ==> {
            let w = mark_step(v, b, bitmap, counter, decrement).volume;
            &&& same_frame(v, w)
            &&& w.blocks[b as int] == bitmap
            &&& forall|c: int| 2 <= c < PROFILE_BLOCKS && c != b ==> #[trigger] w.blocks[c] == v.blocks[c]
        },
{
    reveal(mark_step);
    lemma_write(v, b, bitmap);
    let s = v.write(b, bitmap);
    if s.result is Ok {
        lemma_adjust(s.volume, counter, decrement);
    }
}

/// A claimed block was free and is no part of the file system's own records. It is the only one
/// whose mark changes, and only the blocks with the accounts are written.
pub proof fn law_claim_takes_a_free_block(v: Volume)
    requires
        v.wf(),
    ensures
        claim_block_step(v).result matches Ok(b) ==> {
            let w = claim_block_step(v).volume;
            &&& same_frame(v, w)
            &&& b < PROFILE_BLOCKS
            &&& !v.geometry.structural(b)
            &&& !marked(bitmap_of(v), b as int)
            &&& bitmap_of(w) == with_mark(bitmap_of(v), b as int, true)
            &&& forall|c: int| 0 <= c < PROFILE_BLOCKS && !accounting(v, c) ==> #[trigger] w.blocks[c] == v.blocks[c]
        },
{
    reveal(claim_block_step);
    let bitmap = bitmap_of(v);
    lemma_first_free(bitmap, v.geometry, 0);
    let s = v.read_for_update(v.geometry.block_bitmap);
    match first_free_block(bitmap, v.geometry, 0) {
        Some(b) => lemma_mark(
            s.volume,
            v.geometry.block_bitmap,
            with_mark(bitmap, b as int, true),
            block_counter(),
            true,
        ),
        None => {},
    }
}

/// A block that a file may own: inside the file system, no part of its own records, and marked
/// as used.
pub open spec fn ownable(v: Volume, b: u32) -> bool {
    &&& 0 < b < PROFILE_BLOCKS
    &&& !v.geometry.structural(b)
    &&& marked(bitmap_of(v), b as int)
}

/// A layout names each of its blocks once, and may own them.
pub open spec fn sound(v: Volume, layout: Layout) -> bool {
    &&& layout.data.len() == TABLE_LEN
    &&& layout.indirect != 0 ==> ownable(v, layout.indirect)
    &&& layout.indirect == 0 ==> forall|i: int|
        DIRECT_BLOCKS <= i < TABLE_LEN ==> #[trigger] layout.data[i] == 0
    &&& forall|i: int|
        0 <= i < TABLE_LEN && #[trigger] layout.data[i] != 0 ==> ownable(v, layout.data[i])
            && layout.data[i] != layout.indirect
    &&& forall|i: int, j: int|
        0 <= i < j < TABLE_LEN && #[trigger] layout.data[i] != 0 ==> layout.data[i]
            != #[trigger] layout.data[j]
}

/// Whether a block belongs to a layout.
pub open spec fn owns(layout: Layout, b: int) -> bool {
    b != 0 && (b == layout.indirect || exists|i: int|
        0 <= i < layout.data.len() && #[trigger] layout.data[i] == b)
}

/// Marks are kept, and those of `v`'s unmarked blocks may be added.
pub open spec fn marks_grow(v: Volume, w: Volume) -> bool {
    forall|b: int|
        0 <= b < PROFILE_BLOCKS && #[trigger] marked(bitmap_of(v), b) ==> marked(bitmap_of(w), b)
}

pub(crate) proof fn lemma_claim_marks(v: Volume)
    requires
        v.wf(),
    ensures
        claim_block_step(v).result matches Ok(b) ==> {
            let w = claim_block_step(v).volume;
            &&& marks_grow(v, w)
            &&& ownable(w, b)
        },
{
    law_claim_takes_a_free_block(v);
    if let Ok(b) = claim_block_step(v).result {
        let w = claim_block_step(v).volume;
        assert forall|c: int| 0 <= c < PROFILE_BLOCKS && #[trigger] marked(bitmap_of(v), c)
            implies marked(bitmap_of(w), c) by {
            lemma_with_mark(bitmap_of(v), b as int, true, c);
        }
        lemma_with_mark(bitmap_of(v), b as int, true, b as int);
    }
}

/// Claiming a file's missing blocks keeps its layout sound and gives it blocks that were free.
pub(crate) proof fn lemma_claim_missing(
    v: Volume,
    layout: Layout,
    logical: int,
    needed: int,
    zeroed: bool,
)
    requires
        v.wf(),
        sound(v, layout),
        0 <= logical <= needed <= TABLE_LEN,
        needed > DIRECT_BLOCKS ==> layout.indirect != 0,
    ensures
        claim_missing(v, layout.data, logical, needed, zeroed).result matches Ok(data) ==> {
            let w = claim_missing(v, layout.data, logical, needed, zeroed).volume;
            &&& same_frame(v, w)
            &&& marks_grow(v, w)
            &&& sound(w, Layout { indirect: layout.indirect, data })
            &&& forall|i: int|
                0 <= i < TABLE_LEN && !(logical <= i < needed && layout.data[i] == 0)
                    ==> #[trigger] data[i] == layout.data[i]
            &&& forall|i: int|
                logical <= i < needed ==> #[trigger] data[i] != 0 && (layout.data[i] == 0
                    ==> !marked(bitmap_of(v), data[i] as int))
            &&& zeroed ==> forall|i: int|
                logical <= i < needed && layout.data[i] == 0
                    ==> w.blocks[#[trigger] data[i] as int] == zeros(BLOCK_BYTES as nat)
            &&& forall|c: int|
                0 <= c < PROFILE_BLOCKS && !accounting(v, c) && (zeroed ==> forall|i: int|
                    logical <= i < needed && layout.data[i] == 0 ==> #[trigger] data[i] != c)
                    ==> #[trigger] w.blocks[c] == v.blocks[c]
        },
    decreases needed - logical,
{
    if logical < needed {
        if layout.data[logical] != 0 {
            lemma_claim_missing(v, layout, logical + 1, needed, zeroed);
        } else {
            law_claim_takes_a_free_block(v);
            lemma_claim_marks(v);
            let claimed = claim_block_step(v);
            if let Ok(b) = claimed.result {
                let blank = zeros(BLOCK_BYTES as nat);
                lemma_write(claimed.volume, b, blank);
                let ready = if zeroed {
                    claimed.volume.write_through(b, blank)
                } else {
                    claimed.volume.done(())
                };
                if ready.result is Ok {
                    let u = ready.volume;
                    let next = Layout {
                        indirect: layout.indirect,
                        data: layout.data.update(logical, b),
                    };
                    assert(bitmap_of(u) == bitmap_of(claimed.volume));
                    assert(!owns(layout, b as int));
                    assert(sound(u, next)) by {
                        assert forall|i: int| 0 <= i < TABLE_LEN && #[trigger] next.data[i] != 0
                            implies ownable(u, next.data[i]) && next.data[i] != next.indirect by {
                            if i != logical {
                                assert(layout.data[i] != 0);
                                assert(marked(bitmap_of(v), layout.data[i] as int));
                            } else {
                                assert(layout.indirect != 0 ==> marked(
                                    bitmap_of(v),
                                    layout.indirect as int,
                                ));
                            }
                        }
                        assert forall|i: int, j: int|
                            0 <= i < j < TABLE_LEN && #[trigger] next.data[i] != 0 implies next.data[i]
                            != #[trigger] next.data[j] by {
                            if i == logical && next.data[j] != 0 {
                                assert(marked(bitmap_of(v), layout.data[j] as int));
                            } else if j == logical {
                                assert(marked(bitmap_of(v), layout.data[i] as int));
                            } else if i != logical && j != logical {
                                assert(layout.data[i] != layout.data[j]);
                            }
                        }
                        if layout.indirect != 0 {
                            assert(marked(bitmap_of(v), layout.indirect as int));
                        } else {
                            assert(logical < DIRECT_BLOCKS);
                        }
                    }
                    lemma_claim_missing(u, next, logical + 1, needed, zeroed);
                    let last = claim_missing(u, next.data, logical + 1, needed, zeroed);
                    if let Ok(data) = last.result {
                        let w = last.volume;
                        assert(data[logical] == next.data[logical] == b);
                        assert forall|c: int|
                            0 <= c < PROFILE_BLOCKS && #[trigger] marked(bitmap_of(v), c)
                            implies marked(bitmap_of(w), c) by {
                            assert(marked(bitmap_of(u), c));
                        }
                        assert forall|i: int| logical <= i < needed implies #[trigger] data[i] != 0
                            && (layout.data[i] == 0 ==> !marked(bitmap_of(v), data[i] as int)) by {
                            if i > logical {
                                assert(next.data[i] == layout.data[i]);
                                if marked(bitmap_of(v), data[i] as int) && layout.data[i] == 0 {
                                    assert(ownable(w, data[i]));
                                    assert(marked(bitmap_of(u), data[i] as int));
                                }
                            }
                        }
                        assert forall|i: int|
                            0 <= i < TABLE_LEN && !(logical <= i < needed && layout.data[i] == 0)
                            implies #[trigger] data[i] == layout.data[i] by {
                            assert(next.data[i] == layout.data[i]);
                        }
                        if zeroed {
                            assert forall|i: int|
                                logical <= i < needed && layout.data[i] == 0 implies w.blocks[
                            #[trigger] data[i] as int] == blank by {
                                if i == logical {
                                    assert(u.blocks[b as int] == blank);
                                    assert forall|k: int|
                                        logical + 1 <= k < needed && next.data[k] == 0
                                        implies #[trigger] data[k] != b by {
                                        assert(data[logical] != data[k]);
                                    }
                                } else {
                                    assert(next.data[i] == 0);
                                }
                            }
                        }
                        assert forall|c: int|
                            0 <= c < PROFILE_BLOCKS && !accounting(v, c) && (zeroed
                                ==> forall|i: int|
                                logical <= i < needed && layout.data[i] == 0
                                    ==> #[trigger] data[i] != c)
                            implies #[trigger] w.blocks[c] == v.blocks[c] by {
                            if zeroed {
                                assert(data[logical] != c);
                                assert forall|i: int|
                                    logical + 1 <= i < needed && next.data[i] == 0
                                    implies #[trigger] data[i] != c by {
                                    assert(layout.data[i] == 0);
                                }
                            }
                            assert(u.blocks[c] == v.blocks[c]);
                        }
                    }
                }
            }
        }
    }
}

/// Giving a file an indirect block keeps its layout sound.
pub(crate) proof fn lemma_ensure_indirect(v: Volume, layout: Layout, needed: int)
    requires
        v.wf(),
        sound(v, layout),
    ensures
        ensure_indirect_step(v, layout, needed).result matches Ok(rooted) ==> {
            let w = ensure_indirect_step(v, layout, needed).volume;
            &&& same_frame(v, w)
            &&& marks_grow(v, w)
            &&& sound(w, rooted)
            &&& rooted.data == layout.data
            &&& needed > DIRECT_BLOCKS ==> rooted.indirect != 0
            &&& layout.indirect != 0 ==> rooted.indirect == layout.indirect
            &&& rooted.indirect != layout.indirect ==> needed > DIRECT_BLOCKS && !marked(
                bitmap_of(v),
                rooted.indirect as int,
            )
            &&& forall|c: int|
                0 <= c < PROFILE_BLOCKS && !accounting(v, c) && (c == rooted.indirect ==> c
                    == layout.indirect) ==> #[trigger] w.blocks[c] == v.blocks[c]
        },
{
    if needed > DIRECT_BLOCKS && layout.indirect == 0 {
        law_claim_takes_a_free_block(v);
        lemma_claim_marks(v);
        let claimed = claim_block_step(v);
        if let Ok(b) = claimed.result {
            lemma_write(claimed.volume, b, zeros(BLOCK_BYTES as nat));
            let ready = claimed.volume.write_through(b, zeros(BLOCK_BYTES as nat));
            if ready.result is Ok {
                let w = ready.volume;
                let rooted = Layout { indirect: b, data: layout.data };
                assert(bitmap_of(w) == bitmap_of(claimed.volume));
                assert forall|i: int| 0 <= i < TABLE_LEN && #[trigger] rooted.data[i] != 0
                    implies ownable(w, rooted.data[i]) && rooted.data[i] != rooted.indirect by {
                    assert(marked(bitmap_of(v), layout.data[i] as int));
                }
                assert(sound(w, rooted));
                assert forall|c: int|
                    0 <= c < PROFILE_BLOCKS && #[trigger] marked(bitmap_of(v), c) implies marked(
                    bitmap_of(w),
                    c,
                ) by {
                    assert(marked(bitmap_of(claimed.volume), c));
                }
            }
        }
    }
}

/// The content that a write at `offset` leaves in the block of logical block `l`.
pub open spec fn filled_block(
    v: Volume,
    before: Seq<u32>,
    data: Seq<u32>,
    offset: int,
    src: Seq<u8>,
    l: int,
) -> Seq<u8> {
    let base = if before[l] == 0 {
        zeros(BLOCK_BYTES as nat)
    } else {
        v.blocks[data[l] as int]
    };
    if overlaps(l, offset, src.len() as int) {
        overlaid(base, l, offset, src)
    } else {
        base
    }
}

/// Filling a file's blocks touches them alone, and leaves in each what the write says.
pub(crate) proof fn lemma_fill(
    v: Volume,
    layout: Layout,
    before: Seq<u32>,
    offset: int,
    src: Seq<u8>,
    logical: int,
    needed: int,
)
    requires
        v.wf(),
        sound(v, layout),
        0 <= logical <= needed <= TABLE_LEN,
        forall|i: int| logical <= i < needed ==> #[trigger] layout.data[i] != 0,
    ensures
        fill_from(v, before, layout.data, offset, src, logical, needed).result is Ok ==> {
            let w = fill_from(v, before, layout.data, offset, src, logical, needed).volume;
            &&& same_frame(v, w)
            &&& forall|i: int|
                logical <= i < needed ==> w.blocks[#[trigger] layout.data[i] as int]
                    == filled_block(v, before, layout.data, offset, src, i)
            &&& forall|c: int|
                0 <= c < PROFILE_BLOCKS && (forall|i: int|
                    logical <= i < needed ==> #[trigger] layout.data[i] != c)
                    ==> #[trigger] w.blocks[c] == v.blocks[c]
        },
    decreases needed - logical,
{
    if logical < needed {
        let target = layout.data[logical];
        assert(ownable(v, target));
        let s = fill_step(v, before, layout.data, offset, src, logical);
        if s.result is Ok {
            let content = filled_block(v, before, layout.data, offset, src, logical);
            assert(content.len() == BLOCK_BYTES);
            lemma_write(v, target, content);
            lemma_write(v.ticked(), target, content);
            let u = s.volume;
            assert(same_frame(v, u) && u.blocks[target as int] == content && forall|c: int|
                0 <= c < PROFILE_BLOCKS && c != target ==> #[trigger] u.blocks[c] == v.blocks[c]);
            assert(v.geometry.block_bitmap != target);
            assert(bitmap_of(u) == bitmap_of(v));
            assert(sound(u, layout)) by {
                assert forall|i: int| 0 <= i < TABLE_LEN && #[trigger] layout.data[i] != 0
                    implies ownable(u, layout.data[i]) && layout.data[i] != layout.indirect by {
                    assert(ownable(v, layout.data[i]));
                }
            }
            lemma_fill(u, layout, before, offset, src, logical + 1, needed);
            let t = fill_from(u, before, layout.data, offset, src, logical + 1, needed);
            if t.result is Ok {
                let w = t.volume;
                assert forall|i: int| logical <= i < needed implies w.blocks[
                #[trigger] layout.data[i] as int] == filled_block(
                    v,
                    before,
                    layout.data,
                    offset,
                    src,
                    i,
                ) by {
                    if i == logical {
                        assert forall|k: int| logical + 1 <= k < needed implies #[trigger] layout.data[k]
                            != target by {
                            assert(layout.data[logical] != layout.data[k]);
                        }
                    } else {
                        assert(layout.data[logical] != layout.data[i]);
                        assert(ownable(v, layout.data[i]));
                        assert(u.blocks[layout.data[i] as int] == v.blocks[layout.data[i] as int]);
                    }
                }
                assert forall|c: int|
                    0 <= c < PROFILE_BLOCKS && (forall|i: int|
                        logical <= i < needed ==> #[trigger] layout.data[i] != c)
                    implies #[trigger] w.blocks[c] == v.blocks[c] by {
                    assert(layout.data[logical] != c);
                    assert(u.blocks[c] == v.blocks[c]);
                }
            }
        }
    }
}

/// A node's record.
pub open spec fn file_record(v: Volume, node: NodeId) -> Seq<u8> {
    record_in(v.blocks[table_block(v.geometry, node) as int], node)
}

/// The layout that a record has in a file system.
pub open spec fn layout_in(v: Volume, record: Seq<u8>) -> Layout {
    layout_of(
        record,
        if pointer_of(record, 12) == 0 {
            None
        } else {
            Some(v.blocks[pointer_of(record, 12) as int])
        },
    )
}

/// A node's layout.
pub open spec fn file_layout(v: Volume, node: NodeId) -> Layout {
    layout_in(v, file_record(v, node))
}

/// The length of a node's file.
pub open spec fn file_len(v: Volume, node: NodeId) -> int {
    metadata_of(file_record(v, node))->Ok_0.len as int
}

/// A node is a regular file with a sound layout.
pub open spec fn healthy_file(v: Volume, node: NodeId) -> bool {
    &&& v.wf()
    &&& valid_node(node)
    &&& supported(file_record(v, node))
    &&& metadata_of(file_record(v, node))->Ok_0.kind == NodeKind::Regular
    &&& sound(v, file_layout(v, node))
}

/// What a file holds. Where it has no block, it holds zeros.
pub open spec fn contents(v: Volume, node: NodeId) -> Seq<u8> {
    let data = file_layout(v, node).data;
    Seq::new(
        file_len(v, node) as nat,
        |i: int|
            if data[i / (BLOCK_BYTES as int)] == 0 {
                0
            } else {
                v.blocks[data[i / (BLOCK_BYTES as int)] as int][i % (BLOCK_BYTES as int)]
            },
    )
}

/// Every part of a file from `from` to `to` has a block.
pub open spec fn no_holes(v: Volume, node: NodeId, from: int, to: int) -> bool {
    forall|i: int|
        from <= i * BLOCK_BYTES + (BLOCK_BYTES - 1) && i * BLOCK_BYTES < to && 0 <= i < TABLE_LEN
            ==> #[trigger] file_layout(v, node).data[i] != 0
}

/// A record that was given a layout and a size has them; its kind and its other limits stay.
pub(crate) proof fn lemma_published(record: Seq<u8>, layout: Layout, size: int)
    requires
        record.len() == INODE_BYTES,
        supported(record),
        layout.data.len() == TABLE_LEN,
        0 <= size <= MAX_FILE_BYTES,
    ensures
        published(record, layout, size).len() == INODE_BYTES,
        supported(published(record, layout, size)),
        metadata_of(published(record, layout, size))->Ok_0.len == size,
        metadata_of(published(record, layout, size))->Ok_0.kind == metadata_of(record)->Ok_0.kind,
        pointer_of(published(record, layout, size), 12) == layout.indirect,
        forall|i: int|
            0 <= i < DIRECT_BLOCKS ==> #[trigger] pointer_of(published(record, layout, size), i)
                == layout.data[i],
{
    let bytes = pointer_bytes(layout);
    let one = splice(record, INODE_BLOCK as int, bytes);
    let two = splice(one, INODE_SIZE_LO as int, to_le32(size as u32));
    let done = published(record, layout, size);
    lemma_le32_written(one, INODE_SIZE_LO as int, size as u32);
    assert(le32(done, INODE_SIZE_LO as int) == size);
    assert forall|i: int| 0 <= i <= 12 implies #[trigger] pointer_of(done, i) == (if i < 12 {
        layout.data[i]
    } else {
        layout.indirect
    }) by {
        let value = if i < 12 {
            layout.data[i]
        } else {
            layout.indirect
        };
        let at = INODE_BLOCK + 4 * i;
        assert((4 * i) / 4 == i && (4 * i) % 4 == 0);
        assert((4 * i + 1) / 4 == i && (4 * i + 1) % 4 == 1);
        assert((4 * i + 2) / 4 == i && (4 * i + 2) % 4 == 2);
        assert((4 * i + 3) / 4 == i && (4 * i + 3) % 4 == 3);
        assert(done[at] == bytes[4 * i]);
        assert(done[at + 1] == bytes[4 * i + 1]);
        assert(done[at + 2] == bytes[4 * i + 2]);
        assert(done[at + 3] == bytes[4 * i + 3]);
        lemma_le32_of(done, at, value);
    }
}

/// An indirect block names the blocks that were put into it.
pub(crate) proof fn lemma_indirect_bytes(data: Seq<u32>, i: int)
    requires
        data.len() == TABLE_LEN,
        0 <= i < 1024,
    ensures
        entry_of(indirect_bytes(data), i) == data[DIRECT_BLOCKS + i],
{
    let bytes = indirect_bytes(data);
    let value = data[DIRECT_BLOCKS + i];
    assert((4 * i) / 4 == i && (4 * i) % 4 == 0);
    assert((4 * i + 1) / 4 == i && (4 * i + 1) % 4 == 1);
    assert((4 * i + 2) / 4 == i && (4 * i + 2) % 4 == 2);
    assert((4 * i + 3) / 4 == i && (4 * i + 3) % 4 == 3);
    lemma_le32_of(bytes, 4 * i, value);
}

/// Storing a record replaces it, and touches no other block than its own.
pub(crate) proof fn lemma_store(v: Volume, node: NodeId, record: Seq<u8>)
    requires
        v.wf(),
        record.len() == INODE_BYTES,
    ensures
        store_step(v, node, record).result is Ok ==> {
            let w = store_step(v, node, record).volume;
            let t = table_block(v.geometry, node) as int;
            &&& valid_node(node)
            &&& same_frame(v, w)
            &&& file_record(w, node) == record
            &&& w.blocks == v.blocks.update(
                t,
                splice(v.blocks[t], record_start(node), record),
            )
            &&& v.geometry.structural(t as u32) && !accounting(v, t)
            &&& forall|other: NodeId|
                valid_node(other) && other != node ==> #[trigger] file_record(w, other)
                    == file_record(v, other)
        },
{
    reveal(store_step);
    if valid_node(node) {
        let t = table_block(v.geometry, node);
        let s = v.read_for_update(t);
        let changed = splice(v.blocks[t as int], record_start(node), record);
        lemma_write(s.volume, t, changed);
        if store_step(v, node, record).result is Ok {
            let w = store_step(v, node, record).volume;
            assert(file_record(w, node) =~= record);
            assert forall|other: NodeId| valid_node(other) && other != node implies
                #[trigger] file_record(w, other) == file_record(v, other) by {
                assert(file_record(w, other) =~= file_record(v, other));
            }
        }
    }
}

/// What a write to a file leaves.
pub open spec fn written_file(
    v: Volume,
    node: NodeId,
    offset: int,
    src: Seq<u8>,
    w: Volume,
) -> bool {
    let size = greater(file_len(v, node), offset + src.len());
    let before = file_layout(v, node);
    let after = file_layout(w, node);
    &&& same_frame(v, w)
    &&& marks_grow(v, w)
    &&& healthy_file(w, node)
    &&& file_len(w, node) == size
    &&& forall|i: int|
        0 <= i < TABLE_LEN && before.data[i] != 0 ==> #[trigger] after.data[i] == before.data[i]
    &&& forall|i: int|
        0 <= i < blocks_for(size) ==> #[trigger] after.data[i] != 0 && w.blocks[after.data[i] as int]
            == filled_block(v, before.data, after.data, offset, src, i)
    &&& forall|c: int|
        #[trigger] owns(after, c) && !owns(before, c) ==> !marked(bitmap_of(v), c)
    &&& forall|c: int|
        0 <= c < PROFILE_BLOCKS && !accounting(v, c) && c != table_block(v.geometry, node) && !owns(
            after,
            c,
        ) ==> #[trigger] w.blocks[c] == v.blocks[c]
    &&& forall|other: NodeId|
        valid_node(other) && other != node ==> #[trigger] file_record(w, other) == file_record(
            v,
            other,
        )
}

#[verifier::rlimit(60)]
proof fn lemma_write_file(v: Volume, node: NodeId, offset: int, src: Seq<u8>)
    requires
        healthy_file(v, node),
        src.len() > 0,
        0 <= offset,
        offset + src.len() <= MAX_FILE_BYTES,
    ensures
        ({
            let s = write_step(v, node, file_record(v, node), offset, src);
            s.result is Ok ==> written_file(v, node, offset, src, s.volume)
        }),
{
    reveal(write_step);
    let record = file_record(v, node);
    let size = greater(file_len(v, node), offset + src.len());
    let needed = blocks_for(size);
    let before = file_layout(v, node);
    let s1 = layout_step(v, record);
    if s1.result is Ok {
        let v1 = s1.volume;
        assert(s1.result->Ok_0 == before);
        assert(v1.blocks == v.blocks && same_frame(v, v1));
        assert(sound(v1, before)) by {
            assert forall|i: int| 0 <= i < TABLE_LEN && #[trigger] before.data[i] != 0
                implies ownable(v1, before.data[i]) && before.data[i] != before.indirect by {
                assert(ownable(v, before.data[i]));
            }
        }
        lemma_ensure_indirect(v1, before, needed);
        let s2 = ensure_indirect_step(v1, before, needed);
        if let Ok(rooted) = s2.result {
            let v2 = s2.volume;
            lemma_claim_missing(v2, rooted, 0, needed, false);
            let s3 = claim_missing(v2, rooted.data, 0, needed, false);
            if let Ok(data) = s3.result {
                let v3 = s3.volume;
                let after = Layout { indirect: rooted.indirect, data };
                lemma_fill(v3, after, before.data, offset, src, 0, needed);
                let s4 = fill_from(v3, before.data, data, offset, src, 0, needed);
                if s4.result is Ok {
                    let v4 = s4.volume;
                    let dirty = indirect_gap(before.data, needed);
                    let s5 = write_indirect_step(v4, after, dirty);
                    lemma_write(v4, after.indirect, indirect_bytes(data));
                    if s5.result is Ok {
                        let v5 = s5.volume;
                        let image = published(record, after, size);
                        lemma_published(record, after, size);
                        lemma_store(v5, node, image);
                        let s6 = store_step(v5, node, image);
                        if s6.result is Ok {
                            lemma_write_file_end(
                                v,
                                node,
                                offset,
                                src,
                                rooted,
                                v2,
                                v3,
                                v4,
                                v5,
                                s6.volume,
                                data,
                            );
                        }
                    }
                }
            }
        }
    }
}

#[verifier::rlimit(60)]
proof fn lemma_write_file_end(
    v: Volume,
    node: NodeId,
    offset: int,
    src: Seq<u8>,
    rooted: Layout,
    v2: Volume,
    v3: Volume,
    v4: Volume,
    v5: Volume,
    w: Volume,
    data: Seq<u32>,
)
    requires
        healthy_file(v, node),
        src.len() > 0,
        0 <= offset,
        offset + src.len() <= MAX_FILE_BYTES,
        ({
            let record = file_record(v, node);
            let size = greater(file_len(v, node), offset + src.len());
            let needed = blocks_for(size);
            let before = file_layout(v, node);
            let after = Layout { indirect: rooted.indirect, data };
            let dirty = indirect_gap(before.data, needed);
            let image = published(record, after, size);
            let t = table_block(v.geometry, node) as int;
            // The indirect block.
            &&& same_frame(v, v2)
            &&& marks_grow(v, v2)
            &&& sound(v2, rooted)
            &&& rooted.data == before.data
            &&& needed > DIRECT_BLOCKS ==> rooted.indirect != 0
            &&& before.indirect != 0 ==> rooted.indirect == before.indirect
            &&& rooted.indirect != before.indirect ==> needed > DIRECT_BLOCKS && !marked(
                bitmap_of(v),
                rooted.indirect as int,
            )
            &&& forall|c: int|
                0 <= c < PROFILE_BLOCKS && !accounting(v, c) && (c == rooted.indirect ==> c
                    == before.indirect) ==> #[trigger] v2.blocks[c] == v.blocks[c]
            // The claimed blocks.
            &&& same_frame(v2, v3)
            &&& marks_grow(v2, v3)
            &&& sound(v3, after)
            &&& forall|i: int|
                0 <= i < TABLE_LEN && !(0 <= i < needed && rooted.data[i] == 0)
                    ==> #[trigger] data[i] == rooted.data[i]
            &&& forall|i: int|
                0 <= i < needed ==> #[trigger] data[i] != 0 && (rooted.data[i] == 0 ==> !marked(
                    bitmap_of(v2),
                    data[i] as int,
                ))
            &&& forall|c: int|
                0 <= c < PROFILE_BLOCKS && !accounting(v, c) ==> #[trigger] v3.blocks[c]
                    == v2.blocks[c]
            // The filled blocks.
            &&& same_frame(v3, v4)
            &&& forall|i: int|
                0 <= i < needed ==> v4.blocks[#[trigger] data[i] as int] == filled_block(
                    v3,
                    before.data,
                    data,
                    offset,
                    src,
                    i,
                )
            &&& forall|c: int|
                0 <= c < PROFILE_BLOCKS && (forall|i: int|
                    0 <= i < needed ==> #[trigger] data[i] != c) ==> #[trigger] v4.blocks[c]
                    == v3.blocks[c]
            // The indirect block's content.
            &&& same_frame(v4, v5)
            &&& dirty ==> v5.blocks == v4.blocks.update(
                after.indirect as int,
                indirect_bytes(data),
            )
            &&& !dirty ==> v5.blocks == v4.blocks
            // The record.
            &&& image.len() == INODE_BYTES
            &&& supported(image)
            &&& metadata_of(image)->Ok_0.len == size
            &&& metadata_of(image)->Ok_0.kind == metadata_of(record)->Ok_0.kind
            &&& pointer_of(image, 12) == after.indirect
            &&& forall|i: int|
                0 <= i < DIRECT_BLOCKS ==> #[trigger] pointer_of(image, i) == data[i]
            &&& same_frame(v5, w)
            &&& file_record(w, node) == image
            &&& w.blocks == v5.blocks.update(
                t,
                splice(v5.blocks[t], record_start(node), image),
            )
            &&& v.geometry.structural(t as u32) && !accounting(v, t)
            &&& forall|other: NodeId|
                valid_node(other) && other != node ==> #[trigger] file_record(w, other)
                    == file_record(v5, other)
        }),
    ensures
        written_file(v, node, offset, src, w),
{
    let record = file_record(v, node);
    let size = greater(file_len(v, node), offset + src.len());
    let needed = blocks_for(size);
    let before = file_layout(v, node);
    let after = Layout { indirect: rooted.indirect, data };
    let dirty = indirect_gap(before.data, needed);
    let t = table_block(v.geometry, node) as int;
    let bb = v.geometry.block_bitmap as int;
    assert(needed <= TABLE_LEN);
    // The bitmap stays as the claims left it.
    assert forall|i: int| 0 <= i < TABLE_LEN && #[trigger] data[i] != 0 implies ownable(v3, data[i])
        && data[i] != bb && data[i] != t && data[i] != after.indirect by {}
    assert(after.indirect != 0 ==> ownable(v3, after.indirect));
    assert(v4.blocks[bb] == v3.blocks[bb]);
    assert(dirty ==> after.indirect != 0) by {
        if dirty {
            let i = choose|i: int| DIRECT_BLOCKS <= i < needed && #[trigger] before.data[i] == 0;
            assert(before.data[i] == 0);
        }
    }
    assert(v5.blocks[bb] == v4.blocks[bb]);
    assert(bitmap_of(w) == bitmap_of(v3));
    assert(marks_grow(v, w)) by {
        assert forall|c: int| 0 <= c < PROFILE_BLOCKS && #[trigger] marked(bitmap_of(v), c)
            implies marked(bitmap_of(w), c) by {
            assert(marked(bitmap_of(v2), c));
            assert(marked(bitmap_of(v3), c));
        }
    }
    // The layout is the one that was published.
    if after.indirect != 0 {
        let content = w.blocks[after.indirect as int];
        assert(content == v5.blocks[after.indirect as int]);
        if !dirty {
            assert(after.indirect == before.indirect) by {
                if after.indirect != before.indirect {
                    assert(before.indirect == 0);
                    if needed > DIRECT_BLOCKS {
                        assert(before.data[12] == 0);
                    }
                }
            }
            assert(v4.blocks[after.indirect as int] == v3.blocks[after.indirect as int]);
            assert(v3.blocks[after.indirect as int] == v2.blocks[after.indirect as int]);
            assert(content == v.blocks[before.indirect as int]);
        }
        assert forall|i: int| DIRECT_BLOCKS <= i < TABLE_LEN implies #[trigger] entry_of(
            content,
            i - DIRECT_BLOCKS,
        ) == data[i] by {
            if dirty {
                lemma_indirect_bytes(data, i - DIRECT_BLOCKS);
            } else {
                assert(before.data[i] == entry_of(content, i - DIRECT_BLOCKS));
                assert(data[i] == before.data[i]);
            }
        }
    }
    assert(file_layout(w, node).data =~= data);
    assert(file_layout(w, node) == after);
    assert(sound(w, after)) by {
        assert forall|i: int| 0 <= i < TABLE_LEN && #[trigger] data[i] != 0 implies ownable(
            w,
            data[i],
        ) && data[i] != after.indirect by {
            assert(ownable(v3, data[i]));
        }
    }
    assert(healthy_file(w, node));
    // What was there before.
    assert forall|i: int| 0 <= i < TABLE_LEN && #[trigger] before.data[i] != 0 implies data[i]
        == before.data[i] && v3.blocks[data[i] as int] == v.blocks[data[i] as int] by {
        assert(rooted.data[i] != 0);
        assert(ownable(v, before.data[i]));
        assert(ownable(v2, rooted.data[i]) && rooted.data[i] != rooted.indirect);
        assert(v2.blocks[data[i] as int] == v.blocks[data[i] as int]);
    }
    assert forall|i: int| 0 <= i < needed implies #[trigger] data[i] != 0 && w.blocks[data[i] as int]
        == filled_block(v, before.data, data, offset, src, i) by {
        assert(ownable(v3, data[i]) && data[i] != t && data[i] != after.indirect);
        assert(w.blocks[data[i] as int] == v4.blocks[data[i] as int]);
        if before.data[i] != 0 {
            assert(v3.blocks[data[i] as int] == v.blocks[data[i] as int]);
        }
    }
    assert forall|c: int| #[trigger] owns(after, c) && !owns(before, c) implies !marked(
        bitmap_of(v),
        c,
    ) by {
        if c == after.indirect {
            assert(after.indirect != before.indirect);
        } else {
            let i = choose|i: int| 0 <= i < data.len() && #[trigger] data[i] == c;
            assert(data[i] == c);
            assert(0 <= i < needed && rooted.data[i] == 0) by {
                if rooted.data[i] == data[i] {
                    assert(before.data[i] == c);
                }
            }
            assert(ownable(v3, data[i]));
            if marked(bitmap_of(v), c) {
                assert(marked(bitmap_of(v2), c));
            }
        }
    }
    assert forall|c: int|
        0 <= c < PROFILE_BLOCKS && !accounting(v, c) && c != t && !owns(after, c)
        implies #[trigger] w.blocks[c] == v.blocks[c] by {
        assert(w.blocks[c] == v5.blocks[c]);
        assert(c != after.indirect || after.indirect == 0);
        assert forall|i: int| 0 <= i < needed implies #[trigger] data[i] != c by {
            if data[i] == c {
                assert(owns(after, c));
            }
        }
        assert(v5.blocks[c] == v4.blocks[c]);
        assert(v4.blocks[c] == v3.blocks[c]);
        assert(v3.blocks[c] == v2.blocks[c]);
        assert(v2.blocks[c] == v.blocks[c]);
    }
    assert forall|other: NodeId| valid_node(other) && other != node implies #[trigger] file_record(
        w,
        other,
    ) == file_record(v, other) by {
        let u = table_block(v.geometry, other) as int;
        assert(v.geometry.structural(u as u32) && !accounting(v, u));
        assert(forall|i: int| 0 <= i < needed ==> #[trigger] data[i] != u);
        assert(v5.blocks[u] == v4.blocks[u]);
        assert(v4.blocks[u] == v3.blocks[u]);
        assert(v3.blocks[u] == v2.blocks[u]);
        assert(v2.blocks[u] == v.blocks[u]);
    }
}

/// A file in a file system with the same blocks is the same.
pub(crate) proof fn lemma_same_blocks(v: Volume, u: Volume, node: NodeId)
    requires
        healthy_file(v, node),
        u.blocks == v.blocks,
        u.geometry == v.geometry,
    ensures
        healthy_file(u, node),
        file_record(u, node) == file_record(v, node),
        file_layout(u, node) == file_layout(v, node),
        contents(u, node) == contents(v, node),
{
    assert forall|i: int| 0 <= i < TABLE_LEN && #[trigger] file_layout(u, node).data[i] != 0
        implies ownable(u, file_layout(u, node).data[i]) && file_layout(u, node).data[i]
        != file_layout(u, node).indirect by {
        assert(ownable(v, file_layout(v, node).data[i]));
    }
    assert(contents(u, node) =~= contents(v, node));
}

/// A write of some bytes that succeeds loads the record and writes the file.
pub(crate) proof fn lemma_write_at(v: Volume, node: NodeId, offset: u64, src: Seq<u8>)
    requires
        healthy_file(v, node),
        write_at_step(v, node, offset, src).result is Ok,
    ensures
        src.len() > 0 ==> written_file(
            v.ticked(),
            node,
            offset as int,
            src,
            write_at_step(v, node, offset, src).volume,
        ),
        src.len() == 0 ==> write_at_step(v, node, offset, src).volume == v.ticked(),
        healthy_file(v.ticked(), node),
{
    lemma_same_blocks(v, v.ticked(), node);
    if src.len() > 0 {
        lemma_write_file(v.ticked(), node, offset as int, src);
    }
}

/// A byte of a file after a write.
proof fn lemma_written_byte(v: Volume, node: NodeId, offset: int, src: Seq<u8>, w: Volume, i: int)
    requires
        healthy_file(v, node),
        written_file(v, node, offset, src, w),
        0 <= offset,
        0 <= i < file_len(w, node),
    ensures
        offset <= i < offset + src.len() ==> contents(w, node)[i] == src[i - offset],
        i < file_len(v, node) && !(offset <= i < offset + src.len()) ==> contents(w, node)[i]
            == contents(v, node)[i],
{
    let l = i / (BLOCK_BYTES as int);
    let at = i % (BLOCK_BYTES as int);
    let before = file_layout(v, node).data;
    let after = file_layout(w, node).data;
    assert(l * BLOCK_BYTES + at == i);
    assert(0 <= l < blocks_for(file_len(w, node)));
    assert(after[l] != 0);
    assert(w.blocks[after[l] as int] == filled_block(v, before, after, offset, src, l));
    if before[l] != 0 {
        assert(after[l] == before[l]);
        assert(ownable(v, before[l]));
    }
}

/// Where a file has a block, the block is found and read, unless the device fails.
proof fn lemma_load_block(v: Volume, u: Volume, node: NodeId, l: int)
    requires
        healthy_file(v, node),
        u.blocks == v.blocks,
        u.geometry == v.geometry,
        0 <= l < TABLE_LEN,
        file_layout(v, node).data[l] != 0,
    ensures
        ({
            let s = load_block_step(u, file_record(v, node), l);
            &&& s.volume.blocks == v.blocks
            &&& s.volume.geometry == v.geometry
            &&& s.result is Ok ==> s.result->Ok_0 == v.blocks[file_layout(v, node).data[l] as int]
            &&& s.result is Err ==> s.result->Err_0 is Block
        }),
{
    let layout = file_layout(v, node);
    assert(ownable(v, layout.data[l]));
    if l >= DIRECT_BLOCKS {
        assert(ownable(v, layout.indirect));
    }
}

proof fn lemma_read_from(
    v: Volume,
    u: Volume,
    node: NodeId,
    offset: int,
    copied: int,
    length: int,
    dst: Seq<u8>,
)
    requires
        healthy_file(v, node),
        u.blocks == v.blocks,
        u.geometry == v.geometry,
        0 <= offset,
        0 <= copied <= length <= dst.len(),
        offset + length <= file_len(v, node),
        no_holes(v, node, offset, offset + length),
    ensures
        ({
            let (s, d) = read_from(u, file_record(v, node), offset, copied, length, dst);
            &&& d.len() == dst.len()
            &&& s.result is Ok ==> forall|k: int|
                0 <= k < dst.len() ==> #[trigger] d[k] == (if copied <= k < length {
                    contents(v, node)[offset + k]
                } else {
                    dst[k]
                })
            &&& s.result is Err ==> s.result->Err_0 is Block
        }),
    decreases length - copied,
{
    if copied < length {
        let position = offset + copied;
        let within = position % (BLOCK_BYTES as int);
        let count = lesser(length - copied, BLOCK_BYTES - within);
        let l = position / (BLOCK_BYTES as int);
        assert(0 <= l < TABLE_LEN && l * BLOCK_BYTES + within == position);
        assert(file_layout(v, node).data[l] != 0);
        lemma_load_block(v, u, node, l);
        let s = load_block_step(u, file_record(v, node), l);
        if let Ok(data) = s.result {
            let part = data.subrange(within, within + count);
            let next = splice(dst, copied, part);
            lemma_read_from(v, s.volume, node, offset, copied + count, length, next);
            let (t, d) = read_from(
                s.volume,
                file_record(v, node),
                offset,
                copied + count,
                length,
                next,
            );
            if t.result is Ok {
                assert forall|k: int| 0 <= k < dst.len() implies #[trigger] d[k] == (if copied <= k
                    < length {
                    contents(v, node)[offset + k]
                } else {
                    dst[k]
                }) by {
                    if copied <= k < copied + count {
                        assert(d[k] == next[k]);
                        assert((offset + k) / (BLOCK_BYTES as int) == l && (offset + k) % (
                        BLOCK_BYTES as int) == within + (k - copied));
                    }
                }
            }
        }
    }
}

/// Reading a file gives what it holds: as many bytes from `offset` on as it has and the buffer
/// takes. Only a failure of the device stops it.
pub proof fn law_read_gives_the_contents(v: Volume, node: NodeId, offset: u64, dst: Seq<u8>)
    requires
        healthy_file(v, node),
        0 < dst.len() <= usize::MAX,
        offset < file_len(v, node),
        no_holes(
            v,
            node,
            offset as int,
            offset + lesser(file_len(v, node) - offset, dst.len() as int),
        ),
    ensures
        ({
            let n = lesser(file_len(v, node) - offset, dst.len() as int);
            let (s, d) = read_at_step(v, node, offset, dst);
            &&& s.result is Ok ==> s.result->Ok_0 == n && d == splice(
                dst,
                0,
                contents(v, node).subrange(offset as int, offset + n),
            )
            &&& s.result is Err ==> s.result->Err_0 is Block
        }),
{
    let n = lesser(file_len(v, node) - offset, dst.len() as int);
    let u = load_step(v, node).volume;
    lemma_read_from(v, u, node, offset as int, 0, n, dst);
    let (s, d) = read_at_step(v, node, offset, dst);
    if s.result is Ok {
        assert(d =~= splice(dst, 0, contents(v, node).subrange(offset as int, offset + n)));
    }
}

/// A write that succeeds leaves the written bytes in the file, and elsewhere what it held. The
/// file ends where the write ends, unless it was longer.
pub proof fn law_write_changes_the_contents(v: Volume, node: NodeId, offset: u64, src: Seq<u8>)
    requires
        healthy_file(v, node),
        write_at_step(v, node, offset, src).result is Ok,
    ensures
        ({
            let w = write_at_step(v, node, offset, src).volume;
            &&& healthy_file(w, node)
            &&& src.len() > 0 ==> contents(w, node).len() == greater(
                file_len(v, node),
                offset + src.len(),
            )
            &&& forall|i: int|
                offset <= i < offset + src.len() ==> #[trigger] contents(w, node)[i] == src[i
                    - offset]
            &&& forall|i: int|
                0 <= i < file_len(v, node) && !(offset <= i < offset + src.len())
                    ==> #[trigger] contents(w, node)[i] == contents(v, node)[i]
        }),
{
    let w = write_at_step(v, node, offset, src).volume;
    lemma_write_at(v, node, offset, src);
    lemma_same_blocks(v, v.ticked(), node);
    if src.len() > 0 {
        assert forall|i: int| offset <= i < offset + src.len() implies #[trigger] contents(
            w,
            node,
        )[i] == src[i - offset] by {
            lemma_written_byte(v.ticked(), node, offset as int, src, w, i);
        }
        assert forall|i: int|
            0 <= i < file_len(v, node) && !(offset <= i < offset + src.len())
            implies #[trigger] contents(w, node)[i] == contents(v, node)[i] by {
            lemma_written_byte(v.ticked(), node, offset as int, src, w, i);
        }
    }
}

/// What a file was given can be read back: a read at the same place and of the same length gives
/// the bytes of the last write. Only a failure of the device stops it.
#[verifier::rlimit(60)]
pub proof fn law_read_gives_what_was_written(
    v: Volume,
    node: NodeId,
    offset: u64,
    src: Seq<u8>,
    dst: Seq<u8>,
)
    requires
        healthy_file(v, node),
        write_at_step(v, node, offset, src).result is Ok,
        dst.len() == src.len(),
        src.len() <= usize::MAX,
    ensures
        ({
            let w = write_at_step(v, node, offset, src).volume;
            let (s, d) = read_at_step(w, node, offset, dst);
            &&& s.result is Ok ==> s.result->Ok_0 == src.len() && d == src
            &&& s.result is Err ==> s.result->Err_0 is Block
        }),
{
    let w = write_at_step(v, node, offset, src).volume;
    law_write_changes_the_contents(v, node, offset, src);
    if src.len() > 0 {
        lemma_written_without_holes(v, node, offset, src);
        law_read_gives_the_contents(w, node, offset, dst);
        let (s, d) = read_at_step(w, node, offset, dst);
        if s.result is Ok {
            assert(d =~= src) by {
                assert forall|i: int| 0 <= i < src.len() implies d[i] == src[i] by {
                    assert(contents(w, node)[offset + i] == src[i]);
                }
            }
        }
    } else {
        assert(dst =~= src);
    }
}

pub(crate) proof fn lemma_written_without_holes(v: Volume, node: NodeId, offset: u64, src: Seq<u8>)
    requires
        healthy_file(v, node),
        write_at_step(v, node, offset, src).result is Ok,
        src.len() > 0,
    ensures
        ({
            let w = write_at_step(v, node, offset, src).volume;
            no_holes(w, node, 0, file_len(w, node))
        }),
{
    lemma_write_at(v, node, offset, src);
    let w = write_at_step(v, node, offset, src).volume;
    assert forall|i: int|
        0 <= i * BLOCK_BYTES + (BLOCK_BYTES - 1) && i * BLOCK_BYTES < file_len(w, node) && 0 <= i
            < TABLE_LEN implies #[trigger] file_layout(w, node).data[i] != 0 by {
        assert(i < blocks_for(file_len(w, node)));
    }
}

/// A write to one file leaves alone every other file that shares no block with it: the other
/// file's record and contents stay, and the two still share no block.
pub proof fn law_write_spares_other_files(
    v: Volume,
    node: NodeId,
    offset: u64,
    src: Seq<u8>,
    other: NodeId,
)
    requires
        healthy_file(v, node),
        healthy_file(v, other),
        node != other,
        forall|b: int| #[trigger] owns(file_layout(v, other), b) ==> !owns(file_layout(v, node), b),
        write_at_step(v, node, offset, src).result is Ok,
    ensures
        ({
            let w = write_at_step(v, node, offset, src).volume;
            &&& healthy_file(w, other)
            &&& file_record(w, other) == file_record(v, other)
            &&& contents(w, other) == contents(v, other)
            &&& forall|b: int| #[trigger] owns(file_layout(w, other), b) ==> !owns(
                file_layout(w, node),
                b,
            )
        }),
{
    let w = write_at_step(v, node, offset, src).volume;
    let u = v.ticked();
    let theirs = file_layout(v, other);
    lemma_write_at(v, node, offset, src);
    lemma_same_blocks(v, u, node);
    lemma_same_blocks(v, u, other);
    if src.len() > 0 {
        assert(file_layout(u, node) == file_layout(v, node));
        assert forall|b: int| #[trigger] owns(theirs, b) implies w.blocks[b] == v.blocks[b] && !owns(
            file_layout(w, node),
            b,
        ) && marked(bitmap_of(w), b) by {
            assert(0 <= b <= u32::MAX && ownable(v, b as u32)) by {
                if b != theirs.indirect {
                    let i = choose|i: int| 0 <= i < theirs.data.len() && #[trigger] theirs.data[i] == b;
                    assert(theirs.data[i] == b);
                }
            }
            assert(marked(bitmap_of(u), b));
            if owns(file_layout(w, node), b) {
                assert(!owns(file_layout(u, node), b));
            }
            assert(v.geometry.structural(table_block(v.geometry, node)));
        }
        if theirs.indirect != 0 {
            assert(owns(theirs, theirs.indirect as int));
        }
        assert(file_layout(w, other) == theirs);
        assert forall|i: int| 0 <= i < TABLE_LEN && #[trigger] theirs.data[i] != 0 implies ownable(
            w,
            theirs.data[i],
        ) && theirs.data[i] != theirs.indirect && w.blocks[theirs.data[i] as int]
            == v.blocks[theirs.data[i] as int] by {
            assert(owns(theirs, theirs.data[i] as int));
            assert(ownable(v, theirs.data[i]));
        }
        assert(sound(w, theirs));
        assert(contents(w, other) =~= contents(v, other));
    }
}

/// A released block loses its mark and no other does; only the blocks with the accounts are
/// written.
pub proof fn law_release_frees_the_block(v: Volume, b: u32)
    requires
        v.wf(),
    ensures
        release_block_step(v, b).result is Ok ==> {
            let w = release_block_step(v, b).volume;
            &&& same_frame(v, w)
            &&& b < PROFILE_BLOCKS
            &&& !v.geometry.structural(b)
            &&& bitmap_of(w) == with_mark(bitmap_of(v), b as int, false)
            &&& forall|c: int|
                0 <= c < PROFILE_BLOCKS && !accounting(v, c) ==> #[trigger] w.blocks[c] == v.blocks[c]
        },
{
    reveal(release_block_step);
    if b < PROFILE_BLOCKS {
        let s = v.read_for_update(v.geometry.block_bitmap);
        lemma_mark(
            s.volume,
            v.geometry.block_bitmap,
            with_mark(bitmap_of(v), b as int, false),
            block_counter(),
            false,
        );
    }
}

/// Releasing blocks keeps the marks of the others.
pub(crate) proof fn lemma_release_all(v: Volume, data: Seq<u32>, from: int, to: int)
    requires
        v.wf(),
        0 <= from,
    ensures
        release_all(v, data, from, to).result is Ok ==> {
            let w = release_all(v, data, from, to).volume;
            &&& same_frame(v, w)
            &&& forall|c: int|
                0 <= c < PROFILE_BLOCKS && (forall|i: int|
                    from <= i < to && #[trigger] data[i] != 0 ==> data[i] != c)
                    ==> #[trigger] marked(bitmap_of(w), c) == marked(bitmap_of(v), c)
            &&& forall|c: int|
                0 <= c < PROFILE_BLOCKS && !accounting(v, c) ==> #[trigger] w.blocks[c]
                    == v.blocks[c]
        },
    decreases to - from,
{
    if from < to {
        if data[from] == 0 {
            lemma_release_all(v, data, from + 1, to);
        } else {
            law_release_frees_the_block(v, data[from]);
            let s = release_block_step(v, data[from]);
            if s.result is Ok {
                let u = s.volume;
                lemma_release_all(u, data, from + 1, to);
                let t = release_all(u, data, from + 1, to);
                if t.result is Ok {
                    let w = t.volume;
                    assert forall|c: int|
                        0 <= c < PROFILE_BLOCKS && (forall|i: int|
                            from <= i < to && #[trigger] data[i] != 0 ==> data[i] != c)
                        implies #[trigger] marked(bitmap_of(w), c) == marked(bitmap_of(v), c) by {
                        assert(data[from] != c);
                        lemma_with_mark(bitmap_of(v), data[from] as int, false, c);
                    }
                    assert forall|c: int| 0 <= c < PROFILE_BLOCKS && !accounting(v, c)
                        implies #[trigger] w.blocks[c] == v.blocks[c] by {
                        assert(u.blocks[c] == v.blocks[c]);
                    }
                }
            }
        }
    }
}

proof fn lemma_mark_twice(bitmap: Seq<u8>, index: int)
    requires
        0 <= index < 8 * bitmap.len(),
        !marked(bitmap, index),
    ensures
        with_mark(with_mark(bitmap, index, true), index, false) == bitmap,
{
    let byte = bitmap[index / 8];
    let bit = (index % 8) as u8;
    assert((byte | (1u8 << bit)) & !(1u8 << bit) == byte) by (bit_vector)
        requires
            bit < 8,
            (byte >> bit) & 1 != 1,
    ;
    assert(with_mark(with_mark(bitmap, index, true), index, false) =~= bitmap);
}

/// What a change of a count that succeeds leaves.
proof fn lemma_adjust_exact(v: Volume, counter: Counter, decrement: bool)
    requires
        v.wf(),
        counter.wf(),
    ensures
        adjust_counts_step(v, counter, decrement).result is Ok ==> ({
            let w = adjust_counts_step(v, counter, decrement).volume;
            let changed = counted(v.blocks[0], v.blocks[1], counter, decrement);
            &&& changed matches Some((superblock, group)) && w.blocks == v.blocks.update(
                0,
                superblock,
            ).update(1, group)
            &&& same_frame(v, w)
        }),
{
    reveal(adjust_counts_step);
    let s = v.read_for_update(SUPERBLOCK_BLOCK);
    let g = s.volume.read_for_update(GROUP_DESCRIPTOR_BLOCK);
    if s.result is Ok && g.result is Ok {
        let changed = counted(s.result->Ok_0, g.result->Ok_0, counter, decrement);
        if let Some((superblock, group)) = changed {
            lemma_write(g.volume, SUPERBLOCK_BLOCK, superblock);
            let t = g.volume.write(SUPERBLOCK_BLOCK, superblock);
            if t.result is Ok {
                lemma_write(t.volume, GROUP_DESCRIPTOR_BLOCK, group);
            }
        }
    }
}

/// What a change of a bitmap that succeeds leaves.
proof fn lemma_mark_exact(v: Volume, b: u32, bitmap: Seq<u8>, counter: Counter, decrement: bool)
    requires
        v.wf(),
        counter.wf(),
        b >= 2,
        bitmap.len() == BLOCK_BYTES,
    ensures
        mark_step(v, b, bitmap, counter, decrement).result is Ok ==> ({
            let w = mark_step(v, b, bitmap, counter, decrement).volume;
            let changed = counted(v.blocks[0], v.blocks[1], counter, decrement);
            &&& changed matches Some((superblock, group)) && w.blocks == v.blocks.update(
                b as int,
                bitmap,
            ).update(0, superblock).update(1, group)
            &&& same_frame(v, w)
        }),
{
    reveal(mark_step);
    lemma_write(v, b, bitmap);
    let s = v.write(b, bitmap);
    if s.result is Ok {
        lemma_adjust_exact(s.volume, counter, decrement);
    }
}

/// Counting down and up again gives the first count.
proof fn lemma_counted_twice(superblock: Seq<u8>, group: Seq<u8>, counter: Counter)
    requires
        superblock.len() == BLOCK_BYTES,
        group.len() == BLOCK_BYTES,
        counter.wf(),
    ensures
        counted(superblock, group, counter, true) matches Some((s, g)) ==> counted(
            s,
            g,
            counter,
            false,
        ) == Some((superblock, group)),
{
    let at = counter.super_offset as int;
    let place = counter.group_offset as int;
    let total = le32(superblock, at);
    let in_group = le16(group, place);
    if total > 0 && in_group > 0 {
        lemma_le32_written(superblock, at, (total - 1) as u32);
        lemma_le16_written(group, place, (in_group - 1) as u16);
        lemma_le32_rewritten(superblock, at, (total - 1) as u32);
        lemma_le16_rewritten(group, place, (in_group - 1) as u16);
    }
}

/// Releasing a block that was just claimed leaves every block of the file system as it was
/// before the claim.
pub proof fn law_release_undoes_claim(v: Volume)
    requires
        v.wf(),
    ensures
        claim_block_step(v).result matches Ok(b) ==> {
            let s = release_block_step(claim_block_step(v).volume, b);
            s.result is Ok ==> s.volume.blocks == v.blocks
        },
{
    reveal(claim_block_step);
    reveal(release_block_step);
    lemma_first_free(bitmap_of(v), v.geometry, 0);
    if let Ok(b) = claim_block_step(v).result {
        let bb = v.geometry.block_bitmap;
        let taken = with_mark(bitmap_of(v), b as int, true);
        let r = v.read_for_update(bb);
        lemma_mark_exact(r.volume, bb, taken, block_counter(), true);
        let w = claim_block_step(v).volume;
        let q = w.read_for_update(bb);
        let freed = with_mark(taken, b as int, false);
        assert(bitmap_of(w) == taken);
        lemma_mark_twice(bitmap_of(v), b as int);
        lemma_mark_exact(q.volume, bb, freed, block_counter(), false);
        lemma_counted_twice(v.blocks[0], v.blocks[1], block_counter());
        let s = release_block_step(w, b);
        if s.result is Ok {
            assert(s.volume.blocks =~= v.blocks);
        }
    }
}

/// Releasing an inode that was just claimed leaves every block of the file system as it was
/// before the claim.
pub proof fn law_release_undoes_claim_of_an_inode(v: Volume)
    requires
        v.wf(),
    ensures
        claim_inode_step(v).result matches Ok(n) ==> {
            let s = release_inode_step(claim_inode_step(v).volume, n);
            s.result is Ok ==> s.volume.blocks == v.blocks
        },
{
    reveal(claim_inode_step);
    reveal(release_inode_step);
    let bb = v.geometry.inode_bitmap;
    let bitmap = v.blocks[bb as int];
    lemma_first_free_inode(bitmap, RESERVED_INODES + 1);
    if let Ok(n) = claim_inode_step(v).result {
        let taken = with_mark(bitmap, n - 1, true);
        let r = v.read_for_update(bb);
        lemma_mark_exact(r.volume, bb, taken, inode_counter(), true);
        let w = claim_inode_step(v).volume;
        let q = w.read_for_update(bb);
        assert(w.blocks[bb as int] == taken);
        lemma_mark_twice(bitmap, n - 1);
        lemma_mark_exact(q.volume, bb, with_mark(taken, n - 1, false), inode_counter(), false);
        lemma_counted_twice(v.blocks[0], v.blocks[1], inode_counter());
        let s = release_inode_step(w, n);
        if s.result is Ok {
            assert(s.volume.blocks =~= v.blocks);
        }
    }
}

proof fn lemma_first_free_inode(bitmap: Seq<u8>, from: int)
    requires
        from >= 1,
    ensures
        first_free_inode(bitmap, from) matches Some(n) ==> from <= n <= PROFILE_INODES && !marked(
            bitmap,
            n - 1,
        ),
    decreases PROFILE_INODES + 1 - from,
{
    if from <= PROFILE_INODES && marked(bitmap, from - 1) {
        lemma_first_free_inode(bitmap, from + 1);
    }
}

/// A claimed inode was free, is none of the reserved ones, and gets its mark; only the blocks
/// with the accounts are written.
pub proof fn law_claim_takes_a_free_inode(v: Volume)
    requires
        v.wf(),
    ensures
        claim_inode_step(v).result matches Ok(n) ==> {
            let w = claim_inode_step(v).volume;
            let bb = v.geometry.inode_bitmap as int;
            &&& same_frame(v, w)
            &&& RESERVED_INODES < n <= PROFILE_INODES
            &&& !marked(v.blocks[bb], n - 1)
            &&& w.blocks[bb] == with_mark(v.blocks[bb], n - 1, true)
            &&& forall|c: int|
                2 <= c < PROFILE_BLOCKS && c != bb ==> #[trigger] w.blocks[c] == v.blocks[c]
        },
{
    reveal(claim_inode_step);
    let bb = v.geometry.inode_bitmap;
    let bitmap = v.blocks[bb as int];
    lemma_first_free_inode(bitmap, RESERVED_INODES + 1);
    if let Ok(n) = claim_inode_step(v).result {
        let r = v.read_for_update(bb);
        lemma_mark(r.volume, bb, with_mark(bitmap, n - 1, true), inode_counter(), true);
    }
}

/// What a change of a file's length leaves: the part that the file keeps stays as it was, and
/// blocks that it gains hold zeros.
pub open spec fn resized_file(v: Volume, node: NodeId, len: int, w: Volume) -> bool {
    let before = file_layout(v, node).data;
    &&& healthy_file(w, node)
    &&& file_len(w, node) == len
    &&& forall|i: int|
        0 <= i < lesser(len, file_len(v, node)) ==> #[trigger] contents(w, node)[i] == contents(
            v,
            node,
        )[i]
    &&& forall|i: int|
        file_len(v, node) <= i < len && before[i / (BLOCK_BYTES as int)] == 0
            ==> #[trigger] contents(w, node)[i] == 0
    &&& forall|c: int|
        #[trigger] owns(file_layout(w, node), c) && !owns(file_layout(v, node), c) ==> !marked(
            bitmap_of(v),
            c,
        )
}

/// A stored record and layout are those of the file.
pub(crate) proof fn lemma_layout_stored(w: Volume, node: NodeId, record: Seq<u8>, layout: Layout)
    requires
        file_record(w, node) == record,
        layout.data.len() == TABLE_LEN,
        pointer_of(record, 12) == layout.indirect,
        forall|i: int| 0 <= i < DIRECT_BLOCKS ==> #[trigger] pointer_of(record, i) == layout.data[i],
        layout.indirect == 0 ==> forall|i: int|
            DIRECT_BLOCKS <= i < TABLE_LEN ==> #[trigger] layout.data[i] == 0,
        layout.indirect != 0 ==> forall|i: int|
            0 <= i < 1024 ==> #[trigger] entry_of(w.blocks[layout.indirect as int], i)
                == layout.data[DIRECT_BLOCKS + i],
    ensures
        file_layout(w, node) == layout,
{
    let found = file_layout(w, node);
    assert forall|i: int| 0 <= i < TABLE_LEN implies found.data[i] == layout.data[i] by {
        if i >= DIRECT_BLOCKS && layout.indirect != 0 {
            assert(entry_of(w.blocks[layout.indirect as int], i - DIRECT_BLOCKS)
                == layout.data[DIRECT_BLOCKS + (i - DIRECT_BLOCKS)]);
        }
    }
    assert(found.data =~= layout.data);
}

/// A file keeps what it holds where its blocks and their content stay.
proof fn lemma_kept_byte(v: Volume, w: Volume, node: NodeId, i: int)
    requires
        0 <= i < file_len(v, node),
        i < file_len(w, node),
        ({
            let l = i / (BLOCK_BYTES as int);
            let before = file_layout(v, node).data[l];
            let after = file_layout(w, node).data[l];
            if before == 0 {
                after == 0 || w.blocks[after as int] == zeros(BLOCK_BYTES as nat)
            } else {
                after == before && w.blocks[after as int] == v.blocks[after as int]
            }
        }),
    ensures
        contents(w, node)[i] == contents(v, node)[i],
{
}

#[verifier::rlimit(60)]
pub(crate) proof fn lemma_grow(v: Volume, node: NodeId, len: int)
    requires
        healthy_file(v, node),
        file_len(v, node) < len <= MAX_FILE_BYTES,
    ensures
        grow_step(v, node, file_record(v, node), len).result is Ok ==> resized_file(
            v,
            node,
            len,
            grow_step(v, node, file_record(v, node), len).volume,
        ),
{
    reveal(grow_step);
    let record = file_record(v, node);
    let needed = blocks_for(len);
    let before = file_layout(v, node);
    let s1 = layout_step(v, record);
    if s1.result is Ok {
        let v1 = s1.volume;
        lemma_same_blocks(v, v1, node);
        assert(s1.result->Ok_0 == before);
        lemma_ensure_indirect(v1, before, needed);
        let s2 = ensure_indirect_step(v1, before, needed);
        if let Ok(rooted) = s2.result {
            let v2 = s2.volume;
            lemma_claim_missing(v2, rooted, 0, needed, true);
            let s3 = claim_missing(v2, rooted.data, 0, needed, true);
            if let Ok(data) = s3.result {
                let v3 = s3.volume;
                let after = Layout { indirect: rooted.indirect, data };
                let dirty = indirect_gap(before.data, needed);
                let s4 = write_indirect_step(v3, after, dirty);
                lemma_write(v3, after.indirect, indirect_bytes(data));
                if s4.result is Ok {
                    let v4 = s4.volume;
                    let image = published(record, after, len);
                    lemma_published(record, after, len);
                    lemma_store(v4, node, image);
                    let s5 = store_step(v4, node, image);
                    if s5.result is Ok {
                        let w = s5.volume;
                        let t = table_block(v.geometry, node) as int;
                        let bb = v.geometry.block_bitmap as int;
                        assert(dirty ==> after.indirect != 0) by {
                            if dirty {
                                let i = choose|i: int|
                                    DIRECT_BLOCKS <= i < needed && #[trigger] before.data[i] == 0;
                                assert(before.data[i] == 0);
                            }
                        }
                        assert(bitmap_of(w) == bitmap_of(v3)) by {
                            assert(after.indirect != 0 ==> ownable(v3, after.indirect));
                        }
                        assert forall|i: int| 0 <= i < TABLE_LEN && #[trigger] data[i] != 0
                            implies ownable(w, data[i]) && data[i] != after.indirect
                            && w.blocks[data[i] as int] == v3.blocks[data[i] as int] by {
                            assert(ownable(v3, data[i]));
                        }
                        assert(sound(w, after));
                        if after.indirect != 0 {
                            assert(ownable(v3, after.indirect));
                            assert(w.blocks[after.indirect as int] == v4.blocks[after.indirect as int]);
                            assert forall|i: int| 0 <= i < 1024 implies #[trigger] entry_of(
                                w.blocks[after.indirect as int],
                                i,
                            ) == data[DIRECT_BLOCKS + i] by {
                                if dirty {
                                    lemma_indirect_bytes(data, i);
                                } else {
                                    assert(after.indirect == before.indirect) by {
                                        if after.indirect != before.indirect {
                                            assert(before.data[12] == 0);
                                        }
                                    }
                                    assert(forall|k: int|
                                        0 <= k < needed && rooted.data[k] == 0 ==> #[trigger] data[k]
                                            != after.indirect);
                                    assert(v3.blocks[after.indirect as int]
                                        == v2.blocks[after.indirect as int]);
                                    assert(v2.blocks[after.indirect as int]
                                        == v.blocks[after.indirect as int]);
                                    assert(before.data[DIRECT_BLOCKS + i] == entry_of(
                                        v.blocks[after.indirect as int],
                                        i,
                                    ));
                                    assert(data[DIRECT_BLOCKS + i] == before.data[DIRECT_BLOCKS + i]);
                                }
                            }
                        }
                        lemma_layout_stored(w, node, image, after);
                        assert(healthy_file(w, node));
                        assert forall|c: int| #[trigger] owns(after, c) && !owns(before, c) implies
                            !marked(bitmap_of(v), c) by {
                            if c != after.indirect {
                                let i = choose|i: int| 0 <= i < data.len() && #[trigger] data[i] == c;
                                assert(0 <= i < needed && rooted.data[i] == 0) by {
                                    if rooted.data[i] == data[i] {
                                        assert(before.data[i] == c);
                                    }
                                }
                                assert(ownable(v3, data[i]));
                                if marked(bitmap_of(v), c) {
                                    assert(marked(bitmap_of(v2), c));
                                }
                            }
                        }
                        assert forall|l: int| 0 <= l < TABLE_LEN && #[trigger] before.data[l] != 0
                            implies data[l] == before.data[l] && w.blocks[data[l] as int]
                            == v.blocks[data[l] as int] by {
                            assert(ownable(v, before.data[l]));
                            assert(ownable(v2, rooted.data[l]) && rooted.data[l] != rooted.indirect);
                            assert forall|k: int| 0 <= k < needed && rooted.data[k] == 0 implies
                                #[trigger] data[k] != data[l] by {
                                assert(k != l);
                                if k < l {
                                    assert(data[k] != data[l]);
                                } else {
                                    assert(data[l] != data[k]);
                                }
                            }
                            assert(v3.blocks[data[l] as int] == v2.blocks[data[l] as int]);
                            assert(v2.blocks[data[l] as int] == v.blocks[data[l] as int]);
                        }
                        assert forall|i: int| 0 <= i < lesser(len, file_len(v, node))
                            implies #[trigger] contents(w, node)[i] == contents(v, node)[i] by {
                            let l = i / (BLOCK_BYTES as int);
                            assert(0 <= l < needed);
                            if before.data[l] == 0 {
                                assert(v3.blocks[data[l] as int] == zeros(BLOCK_BYTES as nat));
                                assert(data[l] != 0);
                            }
                            lemma_kept_byte(v, w, node, i);
                        }
                        assert forall|i: int|
                            file_len(v, node) <= i < len && before.data[i / (BLOCK_BYTES as int)]
                                == 0 implies #[trigger] contents(w, node)[i] == 0 by {
                            let l = i / (BLOCK_BYTES as int);
                            assert(0 <= l < needed);
                            assert(data[l] != 0);
                            assert(v3.blocks[data[l] as int] == zeros(BLOCK_BYTES as nat));
                        }
                    }
                }
            }
        }
    }
}

#[verifier::rlimit(60)]
proof fn lemma_shrink(v: Volume, node: NodeId, len: int)
    requires
        healthy_file(v, node),
        0 <= len < file_len(v, node),
    ensures
        shrink_step(v, node, file_record(v, node), len).result is Ok ==> resized_file(
            v,
            node,
            len,
            shrink_step(v, node, file_record(v, node), len).volume,
        ),
{
    reveal(shrink_step);
    let record = file_record(v, node);
    let keep = blocks_for(len);
    let blocks = blocks_for(file_len(v, node));
    let before = file_layout(v, node);
    let kept = trimmed(before, keep);
    let image = published(record, kept, len);
    let s1 = layout_step(v, record);
    if s1.result is Ok {
        let v1 = s1.volume;
        lemma_same_blocks(v, v1, node);
        assert(s1.result->Ok_0 == before);
        lemma_published(record, kept, len);
        lemma_store(v1, node, image);
        let s2 = store_step(v1, node, image);
        if s2.result is Ok {
            let v2 = s2.volume;
            lemma_write(v2, kept.indirect, indirect_bytes(kept.data));
            let s3 = write_indirect_step(v2, kept, kept.indirect != 0);
            if s3.result is Ok {
                let v3 = s3.volume;
                lemma_release_all(v3, before.data, keep, blocks);
                let s4 = release_all(v3, before.data, keep, blocks);
                if s4.result is Ok {
                    let v4 = s4.volume;
                    let gone = if keep <= DIRECT_BLOCKS {
                        before.indirect
                    } else {
                        0
                    };
                    law_release_frees_the_block(v4, gone);
                    let s5 = release_indirect_step(v4, gone);
                    if s5.result is Ok {
                        let w = s5.volume;
                        let bb = v.geometry.block_bitmap as int;
                        let t = table_block(v.geometry, node) as int;
                        if kept.indirect != 0 {
                            assert(ownable(v, before.indirect));
                        }
                        assert(bitmap_of(v3) == bitmap_of(v));
                        assert(w.blocks[t] == v2.blocks[t]);
                        assert(file_record(w, node) == image);
                        assert forall|l: int| 0 <= l < keep && #[trigger] before.data[l] != 0
                            implies ownable(w, before.data[l]) && w.blocks[before.data[l] as int]
                            == v.blocks[before.data[l] as int] by {
                            let b = before.data[l];
                            assert(ownable(v, b));
                            assert forall|i: int| keep <= i < blocks && #[trigger] before.data[i]
                                != 0 implies before.data[i] != b by {
                                assert(before.data[l] != before.data[i]);
                            }
                            assert(marked(bitmap_of(v4), b as int) == marked(
                                bitmap_of(v3),
                                b as int,
                            ));
                            if gone != 0 {
                                lemma_with_mark(bitmap_of(v4), gone as int, false, b as int);
                            }
                            assert(v2.blocks[b as int] == v.blocks[b as int]);
                            assert(v3.blocks[b as int] == v2.blocks[b as int]);
                            assert(v4.blocks[b as int] == v3.blocks[b as int]);
                        }
                        if kept.indirect != 0 {
                            let b = kept.indirect;
                            assert forall|i: int| keep <= i < blocks && #[trigger] before.data[i]
                                != 0 implies before.data[i] != b by {}
                            assert(marked(bitmap_of(v4), b as int) == marked(
                                bitmap_of(v3),
                                b as int,
                            ));
                            assert(ownable(w, b));
                            assert(v4.blocks[b as int] == v3.blocks[b as int]);
                            assert(w.blocks[b as int] == indirect_bytes(kept.data));
                            assert forall|i: int| 0 <= i < 1024 implies #[trigger] entry_of(
                                w.blocks[b as int],
                                i,
                            ) == kept.data[DIRECT_BLOCKS + i] by {
                                lemma_indirect_bytes(kept.data, i);
                            }
                        }
                        lemma_layout_stored(w, node, image, kept);
                        assert(sound(w, kept)) by {
                            assert forall|i: int| 0 <= i < TABLE_LEN && #[trigger] kept.data[i] != 0
                                implies ownable(w, kept.data[i]) && kept.data[i] != kept.indirect by {
                                assert(before.data[i] != 0);
                            }
                            assert forall|i: int, j: int|
                                0 <= i < j < TABLE_LEN && #[trigger] kept.data[i] != 0
                                implies kept.data[i] != #[trigger] kept.data[j] by {
                                assert(before.data[i] != before.data[j]);
                            }
                        }
                        assert(healthy_file(w, node));
                        assert forall|c: int| #[trigger] owns(kept, c) implies owns(before, c) by {
                            if c != kept.indirect {
                                let i = choose|i: int|
                                    0 <= i < kept.data.len() && #[trigger] kept.data[i] == c;
                                assert(before.data[i] == c);
                            }
                        }
                        assert forall|i: int| 0 <= i < lesser(len, file_len(v, node))
                            implies #[trigger] contents(w, node)[i] == contents(v, node)[i] by {
                            let l = i / (BLOCK_BYTES as int);
                            assert(0 <= l < keep);
                            assert(kept.data[l] == before.data[l]);
                            lemma_kept_byte(v, w, node, i);
                        }
                    }
                }
            }
        }
    }
}

/// A change of length that succeeds gives the file that length. What it keeps stays as it was,
/// and blocks that it gains hold zeros.
pub proof fn law_truncate_sets_the_length(v: Volume, node: NodeId, len: u64)
    requires
        healthy_file(v, node),
        truncate_step(v, node, len).result is Ok,
    ensures
        resized_file(v, node, len as int, truncate_step(v, node, len).volume),
{
    let u = v.ticked();
    lemma_same_blocks(v, u, node);
    if len > file_len(v, node) {
        lemma_grow(u, node, len as int);
    } else if len < file_len(v, node) {
        lemma_shrink(u, node, len as int);
    }
}

/// A file never takes a block that another layout owns: what it gains by a write or a change of
/// length was free.
pub proof fn law_a_block_keeps_its_owner(
    v: Volume,
    node: NodeId,
    offset: u64,
    src: Seq<u8>,
    len: u64,
    other: Layout,
    b: int,
)
    requires
        healthy_file(v, node),
        sound(v, other),
        owns(other, b),
        !owns(file_layout(v, node), b),
    ensures
        write_at_step(v, node, offset, src).result is Ok ==> !owns(
            file_layout(write_at_step(v, node, offset, src).volume, node),
            b,
        ),
        truncate_step(v, node, len).result is Ok ==> !owns(
            file_layout(truncate_step(v, node, len).volume, node),
            b,
        ),
{
    assert(marked(bitmap_of(v), b)) by {
        if b == other.indirect {
            assert(ownable(v, other.indirect));
        } else {
            let i = choose|i: int| 0 <= i < other.data.len() && #[trigger] other.data[i] == b;
            assert(ownable(v, other.data[i]));
        }
    }
    lemma_same_blocks(v, v.ticked(), node);
    if write_at_step(v, node, offset, src).result is Ok {
        lemma_write_at(v, node, offset, src);
    }
    if truncate_step(v, node, len).result is Ok {
        law_truncate_sets_the_length(v, node, len);
    }
}

} // verus!
