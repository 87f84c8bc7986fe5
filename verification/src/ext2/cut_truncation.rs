//! What a loss of power in the course of a change of length leaves.
use vstd::prelude::*;

use crate::bytes::splice;
use crate::fs::NodeId;

use super::allocator::{block_counter, lemma_with_mark, marked, release_block_step, with_mark};
use super::contents::{
    bitmap_of, contents, file_layout, file_len, file_record, filled_block, healthy_file,
    law_release_frees_the_block, law_truncate_sets_the_length, lemma_claim_missing,
    lemma_ensure_indirect, lemma_grow, lemma_indirect_bytes, lemma_layout_stored, lemma_published,
    lemma_same_blocks, lemma_store, lemma_write, ownable, owns, resized_file, same_frame, sound,
};
use super::cut::{
    always, cut, either, lemma_always_both, lemma_always_read, lemma_always_weaker, lemma_mark_cut,
    lemma_store_cut, touched, with_blocks,
};
use super::cut_write::{
    filling, half_written, lemma_always_both_writes, lemma_claim_missing_cut,
    lemma_ensure_indirect_cut, lemma_filling_file, lemma_unharmed_at, lemma_unharmed_same,
    lemma_write_indirect_cut, old_or_new, unharmed, unharms,
};
use super::directory::blocks_for;
use super::inode::{
    entry_of, load_step, pointer_of, record_start, store_step, table_block, valid_node,
    DIRECT_BLOCKS, INODE_BYTES, MAX_FILE_BYTES,
};
use super::laws::law_changes_are_honest;
use super::mutation::{
    claim_missing, ensure_indirect_step, grow_step, indirect_bytes, indirect_gap, layout_step,
    overlaps, published, release_all, shrink_step, trimmed, truncate_step, write_indirect_step,
    Layout, TABLE_LEN,
};
use super::on_disk::BLOCK_BYTES;
use super::tree::{mark_kept, node_kept};
use super::volume::Volume;
use super::PROFILE_BLOCKS;

verus! {

/// What a change of length that was cut short leaves: the file is sound, has its old or its new
/// length, and holds what it held as far as both reach. Other nodes keep their records and marks,
/// and blocks that were in use outside the file their content and marks.
pub open spec fn half_resized(v: Volume, node: NodeId, len: int, x: Volume) -> bool {
    &&& same_frame(v, x)
    &&& healthy_file(x, node)
    &&& file_len(x, node) == file_len(v, node) || file_len(x, node) == len
    &&& mark_kept(v, x, node)
    &&& forall|i: int|
        0 <= i < file_len(v, node) && i < len ==> #[trigger] contents(x, node)[i] == contents(
            v,
            node,
        )[i]
    &&& forall|other: NodeId|
        valid_node(other) && other != node ==> #[trigger] node_kept(v, x, other)
    &&& forall|b: u32|
        #[trigger] ownable(v, b) && !owns(file_layout(v, node), b as int) ==> x.blocks[b as int]
            == v.blocks[b as int] && marked(bitmap_of(x), b as int)
}

spec fn half_resizes(v: Volume, node: NodeId, len: int) -> spec_fn(Seq<Seq<u8>>) -> bool {
    |blocks: Seq<Seq<u8>>| half_resized(v, node, len, with_blocks(v, blocks))
}

/// What matters is the blocks.
proof fn lemma_half_resized_at(v: Volume, node: NodeId, len: int, u: Volume, x: Volume)
    requires
        half_resized(v, node, len, u),
        same_frame(v, x),
        x.blocks == u.blocks,
    ensures
        half_resized(v, node, len, x),
{
    lemma_same_blocks(u, x, node);
    assert forall|other: NodeId| valid_node(other) && other != node implies #[trigger] node_kept(
        v,
        x,
        other,
    ) by {
        assert(node_kept(v, u, other));
    }
    assert forall|b: u32|
        #[trigger] ownable(v, b) && !owns(file_layout(v, node), b as int) implies x.blocks[b as int]
        == v.blocks[b as int] && marked(bitmap_of(x), b as int) by {
        assert(marked(bitmap_of(u), b as int));
    }
}

/// A file that nothing was written to is half resized.
proof fn lemma_half_written_resized(v: Volume, node: NodeId, len: int, x: Volume)
    requires
        half_written(v, node, 0, Seq::empty(), x),
    ensures
        half_resized(v, node, len, x),
{
    assert forall|i: int| 0 <= i < file_len(v, node) && i < len implies #[trigger] contents(x, node)[i]
        == contents(v, node)[i] by {
        assert(contents(x, node)[i] == contents(v, node)[i] || 0 <= i < 0 + Seq::<u8>::empty().len());
    }
}

#[verifier::rlimit(60)]
proof fn lemma_grow_cut(v: Volume, node: NodeId, len: int)
    requires
        healthy_file(v, node),
        file_len(v, node) < len <= MAX_FILE_BYTES,
        grow_step(v, node, file_record(v, node), len).result is Ok,
    ensures
        always(
            v,
            grow_step(v, node, file_record(v, node), len).volume,
            half_resizes(v, node, len),
        ),
{
    lemma_grow(v, node, len);
    reveal(grow_step);
    let none = Seq::<u8>::empty();
    let record = file_record(v, node);
    let w = grow_step(v, node, record, len).volume;
    let needed = blocks_for(len);
    let before = file_layout(v, node);
    let goal = half_resizes(v, node, len);
    let calm = unharms(v);
    let v1 = layout_step(v, record).volume;
    assert(layout_step(v, record).result->Ok_0 == before);
    lemma_same_blocks(v, v1, node);
    lemma_unharmed_same(v);
    lemma_always_read(v, v1, calm);
    lemma_unharmed_at(v, v, v1);
    lemma_ensure_indirect(v1, before, needed);
    lemma_ensure_indirect_cut(v, v1, before, needed);
    let rooted = ensure_indirect_step(v1, before, needed).result->Ok_0;
    let v2 = ensure_indirect_step(v1, before, needed).volume;
    lemma_always_both(v, v1, v2, calm);
    assert(needed <= TABLE_LEN);
    lemma_claim_missing(v2, rooted, 0, needed, true);
    lemma_claim_missing_cut(v, v2, rooted.data, 0, needed, true);
    let data = claim_missing(v2, rooted.data, 0, needed, true).result->Ok_0;
    let v3 = claim_missing(v2, rooted.data, 0, needed, true).volume;
    lemma_always_both(v, v2, v3, calm);
    let after = Layout { indirect: rooted.indirect, data };
    assert forall|x: Volume| #[trigger] unharmed(v, x) implies half_written(v, node, 0, none, x) by {
        assert(filling(v, before.data, 0, none, x)) by {
            assert forall|b: u32| #[trigger] ownable(v, b) implies old_or_new(
                v,
                before.data,
                0,
                none,
                b,
                x.blocks[b as int],
            ) by {}
        }
        lemma_filling_file(v, node, 0, none, x);
    }
    assert forall|blocks: Seq<Seq<u8>>| #[trigger] calm(blocks) implies goal(blocks) by {
        let x = with_blocks(v, blocks);
        assert(unharmed(v, x));
        lemma_half_written_resized(v, node, len, x);
    }
    lemma_always_weaker(v, v3, calm, goal);
    assert(filling(v, before.data, 0, none, v3)) by {
        assert forall|b: u32| #[trigger] ownable(v, b) implies old_or_new(
            v,
            before.data,
            0,
            none,
            b,
            v3.blocks[b as int],
        ) by {}
    }
    assert forall|i: int| 0 <= i < needed && before.data[i] == 0 implies !marked(
        bitmap_of(v),
        #[trigger] data[i] as int,
    ) by {
        assert(rooted.data[i] == 0);
        if marked(bitmap_of(v), data[i] as int) {
            assert(ownable(v3, data[i]));
            assert(marked(bitmap_of(v2), data[i] as int));
        }
    }
    assert forall|i: int| 0 <= i < needed implies v3.blocks[#[trigger] data[i] as int]
        == filled_block(v3, before.data, data, 0, none, i) by {
        assert(!overlaps(i, 0, 0));
        if before.data[i] == 0 {
            assert(rooted.data[i] == 0);
        }
    }
    let dirty = indirect_gap(before.data, needed);
    let v4 = write_indirect_step(v3, after, dirty).volume;
    lemma_write_indirect_cut(v, node, 0, none, needed, after, v3, v3, v4);
    lemma_half_written_resized(v, node, len, v4);
    lemma_half_resized_at(v, node, len, v4, with_blocks(v, v4.blocks));
    assert(unharmed(v, v3));
    lemma_half_written_resized(v, node, len, v3);
    lemma_half_resized_at(v, node, len, v3, with_blocks(v, v3.blocks));
    lemma_always_both_writes(v, v3, v4, after, dirty, goal);
    let image = published(record, after, len);
    lemma_published(record, after, len);
    lemma_store(v4, node, image);
    lemma_store_cut(v4, node, image);
    lemma_stored_resized(v, node, len, v4, w, image);
    lemma_half_resized_at(v, node, len, w, with_blocks(v, w.blocks));
    lemma_always_weaker(v4, w, either(v4, w), goal);
    lemma_always_both(v, v4, w, goal);
}

/// Storing the record of a file that was given its new length completes the change.
proof fn lemma_stored_resized(
    v: Volume,
    node: NodeId,
    len: int,
    u: Volume,
    w: Volume,
    image: Seq<u8>,
)
    requires
        half_resized(v, node, len, u),
        resized_file(v, node, len, w),
        valid_node(node),
        v.wf(),
        image.len() == INODE_BYTES,
        store_step(u, node, image).result is Ok,
        w == store_step(u, node, image).volume,
    ensures
        half_resized(v, node, len, w),
{
    lemma_store(u, node, image);
    let t = table_block(v.geometry, node);
    let m = v.geometry.inode_bitmap;
    let bb = v.geometry.block_bitmap;
    assert(v.geometry.structural(m) && t != m && v.geometry.structural(t) && t != bb);
    assert(bitmap_of(w) == bitmap_of(u));
    assert(w.blocks[m as int] == u.blocks[m as int]);
    assert forall|other: NodeId| valid_node(other) && other != node implies #[trigger] node_kept(
        v,
        w,
        other,
    ) by {
        assert(node_kept(v, u, other));
        assert(file_record(w, other) == file_record(u, other));
    }
    assert forall|b: u32|
        #[trigger] ownable(v, b) && !owns(file_layout(v, node), b as int) implies w.blocks[b as int]
        == v.blocks[b as int] && marked(bitmap_of(w), b as int) by {
        assert(u.blocks[b as int] == v.blocks[b as int]);
    }
}

/// A block that a file loses when it keeps its first `keep` blocks.
spec fn dropped(layout: Layout, keep: int, b: int) -> bool {
    b != 0 && (keep <= DIRECT_BLOCKS && b == layout.indirect || exists|j: int|
        keep <= j < TABLE_LEN && #[trigger] layout.data[j] == b)
}

/// A file has lost its blocks from `keep` on; their marks may be gone.
spec fn clipped(v: Volume, node: NodeId, len: int, x: Volume) -> bool {
    let before = file_layout(v, node);
    let keep = blocks_for(len);
    let kept = trimmed(before, keep);
    &&& same_frame(v, x)
    &&& file_record(x, node) == published(file_record(v, node), kept, len)
    &&& mark_kept(v, x, node)
    &&& forall|other: NodeId|
        valid_node(other) && other != node ==> #[trigger] node_kept(v, x, other)
    &&& forall|b: int|
        0 <= b < PROFILE_BLOCKS && !dropped(before, keep, b) ==> #[trigger] marked(bitmap_of(x), b)
            == marked(bitmap_of(v), b)
    &&& forall|b: u32|
        b < PROFILE_BLOCKS && !v.geometry.structural(b) && b != kept.indirect
            ==> #[trigger] x.blocks[b as int] == v.blocks[b as int]
    &&& kept.indirect != 0 ==> x.blocks[kept.indirect as int] == indirect_bytes(kept.data)
}

spec fn clips(v: Volume, node: NodeId, len: int) -> spec_fn(Seq<Seq<u8>>) -> bool {
    |blocks: Seq<Seq<u8>>| clipped(v, node, len, with_blocks(v, blocks))
}

proof fn lemma_clipped_at(v: Volume, node: NodeId, len: int, u: Volume, x: Volume)
    requires
        valid_node(node),
        clipped(v, node, len, u),
        same_frame(v, x),
        x.blocks == u.blocks,
    ensures
        clipped(v, node, len, x),
{
    assert forall|other: NodeId| valid_node(other) && other != node implies #[trigger] node_kept(
        v,
        x,
        other,
    ) by {
        assert(node_kept(v, u, other));
    }
    assert(bitmap_of(x) == bitmap_of(u));
    assert forall|b: int|
        0 <= b < PROFILE_BLOCKS && !dropped(file_layout(v, node), blocks_for(len), b)
        implies #[trigger] marked(bitmap_of(x), b) == marked(bitmap_of(v), b) by {
        assert(marked(bitmap_of(u), b) == marked(bitmap_of(v), b));
    }
    assert(file_record(x, node) == file_record(u, node));
}

/// A file with a layout that it keeps a part of holds what it held.
proof fn lemma_shortened(v: Volume, node: NodeId, len: int, now: Layout, x: Volume)
    requires
        healthy_file(v, node),
        0 <= len < file_len(v, node),
        same_frame(v, x),
        file_record(x, node) == published(
            file_record(v, node),
            trimmed(file_layout(v, node), blocks_for(len)),
            len,
        ),
        file_layout(x, node) == now,
        now.data.len() == TABLE_LEN,
        now.indirect == trimmed(file_layout(v, node), blocks_for(len)).indirect,
        forall|i: int|
            0 <= i < blocks_for(len) ==> #[trigger] now.data[i] == file_layout(v, node).data[i],
        forall|i: int|
            0 <= i < TABLE_LEN && #[trigger] now.data[i] != 0 ==> now.data[i] == file_layout(
                v,
                node,
            ).data[i] && marked(bitmap_of(x), now.data[i] as int) && x.blocks[now.data[i] as int]
                == v.blocks[now.data[i] as int],
        now.indirect != 0 ==> marked(bitmap_of(x), now.indirect as int),
        now.indirect == 0 ==> forall|i: int|
            DIRECT_BLOCKS <= i < TABLE_LEN ==> #[trigger] now.data[i] == 0,
    ensures
        healthy_file(x, node),
        file_len(x, node) == len,
        forall|i: int|
            0 <= i < len ==> #[trigger] contents(x, node)[i] == contents(v, node)[i],
{
    let before = file_layout(v, node);
    lemma_published(file_record(v, node), trimmed(before, blocks_for(len)), len);
    assert(sound(x, now)) by {
        assert forall|i: int| 0 <= i < TABLE_LEN && #[trigger] now.data[i] != 0 implies ownable(
            x,
            now.data[i],
        ) && now.data[i] != now.indirect by {
            assert(ownable(v, before.data[i]));
        }
        assert forall|i: int, j: int|
            0 <= i < j < TABLE_LEN && #[trigger] now.data[i] != 0 implies now.data[i]
            != #[trigger] now.data[j] by {
            assert(now.data[i] == before.data[i]);
            if now.data[j] != 0 {
                assert(now.data[j] == before.data[j]);
                assert(before.data[i] != before.data[j]);
            }
        }
        if now.indirect != 0 {
            assert(ownable(v, before.indirect));
        }
    }
    assert forall|i: int| 0 <= i < len implies #[trigger] contents(x, node)[i] == contents(
        v,
        node,
    )[i] by {
        let l = i / (BLOCK_BYTES as int);
        assert(0 <= l < blocks_for(len));
        assert(now.data[l] == before.data[l]);
    }
}

/// A clipped file is half resized.
proof fn lemma_clipped(v: Volume, node: NodeId, len: int, x: Volume)
    requires
        healthy_file(v, node),
        0 <= len < file_len(v, node),
        clipped(v, node, len, x),
    ensures
        half_resized(v, node, len, x),
{
    let before = file_layout(v, node);
    let keep = blocks_for(len);
    let kept = trimmed(before, keep);
    let image = published(file_record(v, node), kept, len);
    assert(file_len(v, node) <= MAX_FILE_BYTES);
    assert(keep <= TABLE_LEN);
    lemma_published(file_record(v, node), kept, len);
    if kept.indirect != 0 {
        assert(ownable(v, before.indirect));
        assert(!dropped(before, keep, kept.indirect as int)) by {
            if exists|j: int| keep <= j < TABLE_LEN && #[trigger] before.data[j] == kept.indirect {
                let j = choose|j: int| keep <= j < TABLE_LEN && #[trigger] before.data[j]
                    == kept.indirect;
                assert(before.data[j] != 0);
            }
        }
        assert(marked(bitmap_of(x), kept.indirect as int));
        assert forall|i: int| 0 <= i < 1024 implies #[trigger] entry_of(
            x.blocks[kept.indirect as int],
            i,
        ) == kept.data[DIRECT_BLOCKS + i] by {
            lemma_indirect_bytes(kept.data, i);
        }
    }
    lemma_layout_stored(x, node, image, kept);
    assert forall|i: int| 0 <= i < TABLE_LEN && #[trigger] kept.data[i] != 0 implies kept.data[i]
        == before.data[i] && marked(bitmap_of(x), kept.data[i] as int) && x.blocks[
    kept.data[i] as int] == v.blocks[kept.data[i] as int] by {
        let b = before.data[i];
        assert(ownable(v, b) && b != before.indirect);
        assert(!dropped(before, keep, b as int)) by {
            if exists|j: int| keep <= j < TABLE_LEN && #[trigger] before.data[j] == b {
                let j = choose|j: int| keep <= j < TABLE_LEN && #[trigger] before.data[j] == b;
                assert(before.data[i] != before.data[j]);
            }
        }
        assert(marked(bitmap_of(x), b as int) == marked(bitmap_of(v), b as int));
        assert(x.blocks[b as int] == v.blocks[b as int]);
    }
    lemma_shortened(v, node, len, kept, x);
    assert forall|b: u32|
        #[trigger] ownable(v, b) && !owns(before, b as int) implies x.blocks[b as int]
        == v.blocks[b as int] && marked(bitmap_of(x), b as int) by {
        assert(!dropped(before, keep, b as int));
        assert(marked(bitmap_of(x), b as int) == marked(bitmap_of(v), b as int));
        if kept.indirect != 0 {
            assert(owns(before, kept.indirect as int));
        }
    }
}

/// Releasing a block that a clipped file has lost.
proof fn lemma_release_clipped(v: Volume, node: NodeId, len: int, u: Volume, b: u32)
    requires
        healthy_file(v, node),
        clipped(v, node, len, u),
        dropped(file_layout(v, node), blocks_for(len), b as int),
        release_block_step(u, b).result is Ok,
    ensures
        always(u, release_block_step(u, b).volume, clips(v, node, len)),
        clipped(v, node, len, release_block_step(u, b).volume),
{
    law_release_frees_the_block(u, b);
    reveal(release_block_step);
    let w = release_block_step(u, b).volume;
    let m = v.geometry.block_bitmap;
    assert(v.geometry.structural(m) && m >= 2);
    let bitmap = with_mark(bitmap_of(u), b as int, false);
    let r = u.read_for_update(m).volume;
    lemma_mark_cut(r, m, bitmap, block_counter(), false);
    let holds = |blocks: Seq<Seq<u8>>| touched(r, m, bitmap, blocks);
    let goal = clips(v, node, len);
    let before = file_layout(v, node);
    let keep = blocks_for(len);
    let kept = trimmed(before, keep);
    assert forall|blocks: Seq<Seq<u8>>| #[trigger] holds(blocks) implies goal(blocks) by {
        let x = with_blocks(v, blocks);
        assert forall|other: NodeId| valid_node(other) implies file_record(x, other) == file_record(
            u,
            other,
        ) by {
            let t = table_block(v.geometry, other);
            assert(v.geometry.structural(t) && t != m && t >= 2);
        }
        let i = v.geometry.inode_bitmap;
        assert(i != m && i >= 2);
        assert(x.blocks[i as int] == u.blocks[i as int]);
        assert forall|other: NodeId| valid_node(other) && other != node implies #[trigger] node_kept(
            v,
            x,
            other,
        ) by {
            assert(node_kept(v, u, other));
        }
        assert forall|c: int|
            0 <= c < PROFILE_BLOCKS && !dropped(before, keep, c) implies #[trigger] marked(
            bitmap_of(x),
            c,
        ) == marked(bitmap_of(v), c) by {
            lemma_with_mark(bitmap_of(u), b as int, false, c);
            assert(marked(bitmap_of(u), c) == marked(bitmap_of(v), c));
        }
        assert forall|c: u32|
            c < PROFILE_BLOCKS && !v.geometry.structural(c) && c != kept.indirect
            implies #[trigger] x.blocks[c as int] == v.blocks[c as int] by {
            assert(c >= 2 && c != m);
            assert(u.blocks[c as int] == v.blocks[c as int]);
        }
        if kept.indirect != 0 {
            assert(ownable(v, before.indirect));
            assert(kept.indirect >= 2 && kept.indirect != m);
        }
    }
    lemma_always_weaker(r, w, holds, goal);
    assert(holds(r.blocks));
    lemma_always_read(u, r, goal);
    lemma_always_both(u, r, w, goal);
    assert(goal(cut(u, w.log, w.log.len() as int).blocks));
    lemma_clipped_at(v, node, len, with_blocks(v, w.blocks), w);
}

proof fn lemma_release_all_clipped(v: Volume, node: NodeId, len: int, u: Volume, from: int, to: int)
    requires
        healthy_file(v, node),
        clipped(v, node, len, u),
        0 <= blocks_for(len) <= from,
        to <= TABLE_LEN,
        release_all(u, file_layout(v, node).data, from, to).result is Ok,
    ensures
        always(
            u,
            release_all(u, file_layout(v, node).data, from, to).volume,
            clips(v, node, len),
        ),
        clipped(v, node, len, release_all(u, file_layout(v, node).data, from, to).volume),
    decreases to - from,
{
    let data = file_layout(v, node).data;
    let goal = clips(v, node, len);
    if from >= to {
        lemma_clipped_at(v, node, len, u, with_blocks(v, u.blocks));
        lemma_always_read(u, u, goal);
    } else if data[from] == 0 {
        lemma_release_all_clipped(v, node, len, u, from + 1, to);
    } else {
        let b = data[from];
        assert(dropped(file_layout(v, node), blocks_for(len), b as int));
        lemma_release_clipped(v, node, len, u, b);
        let x = release_block_step(u, b).volume;
        lemma_release_all_clipped(v, node, len, x, from + 1, to);
        lemma_always_both(u, x, release_all(x, data, from + 1, to).volume, goal);
    }
}

/// A file whose record was stored, and whose indirect block still names blocks that it loses, is
/// half resized.
proof fn lemma_published_resized(v: Volume, node: NodeId, len: int, x: Volume)
    requires
        healthy_file(v, node),
        0 <= len < file_len(v, node),
        same_frame(v, x),
        ({
            let image = published(
                file_record(v, node),
                trimmed(file_layout(v, node), blocks_for(len)),
                len,
            );
            let t = table_block(v.geometry, node) as int;
            &&& file_record(x, node) == image
            &&& x.blocks == v.blocks.update(t, splice(v.blocks[t], record_start(node), image))
        }),
        forall|other: NodeId|
            valid_node(other) && other != node ==> #[trigger] file_record(x, other) == file_record(
                v,
                other,
            ),
    ensures
        half_resized(v, node, len, x),
{
    let before = file_layout(v, node);
    let keep = blocks_for(len);
    let kept = trimmed(before, keep);
    let image = published(file_record(v, node), kept, len);
    let t = table_block(v.geometry, node);
    assert(file_len(v, node) <= MAX_FILE_BYTES);
    lemma_published(file_record(v, node), kept, len);
    assert(v.geometry.structural(t) && t != v.geometry.block_bitmap && t != v.geometry.inode_bitmap);
    assert(bitmap_of(x) == bitmap_of(v));
    let now = file_layout(x, node);
    if kept.indirect != 0 {
        assert(ownable(v, before.indirect));
        assert(x.blocks[before.indirect as int] == v.blocks[before.indirect as int]);
    }
    assert forall|i: int| 0 <= i < TABLE_LEN implies #[trigger] now.data[i] == (if i
        < DIRECT_BLOCKS {
        kept.data[i]
    } else if kept.indirect != 0 {
        before.data[i]
    } else {
        0
    }) by {
        if i < DIRECT_BLOCKS {
            assert(pointer_of(image, i) == kept.data[i]);
        } else {
            assert(pointer_of(image, 12) == kept.indirect);
        }
    }
    assert forall|i: int| 0 <= i < TABLE_LEN && #[trigger] now.data[i] != 0 implies now.data[i]
        == before.data[i] && marked(bitmap_of(x), now.data[i] as int) && x.blocks[
    now.data[i] as int] == v.blocks[now.data[i] as int] by {
        assert(now.data[i] == before.data[i]);
        assert(ownable(v, before.data[i]));
    }
    assert forall|i: int| 0 <= i < keep implies #[trigger] now.data[i] == before.data[i] by {
        if i >= DIRECT_BLOCKS && kept.indirect == 0 {
            assert(before.indirect == 0);
        }
    }
    lemma_shortened(v, node, len, now, x);
    assert forall|other: NodeId| valid_node(other) && other != node implies #[trigger] node_kept(
        v,
        x,
        other,
    ) by {
        assert(file_record(x, other) == file_record(v, other));
    }
}

#[verifier::rlimit(40)]
proof fn lemma_shrink_cut(v: Volume, node: NodeId, len: int)
    requires
        healthy_file(v, node),
        0 <= len < file_len(v, node),
        shrink_step(v, node, file_record(v, node), len).result is Ok,
    ensures
        always(
            v,
            shrink_step(v, node, file_record(v, node), len).volume,
            half_resizes(v, node, len),
        ),
{
    reveal(shrink_step);
    let record = file_record(v, node);
    let w = shrink_step(v, node, record, len).volume;
    let keep = blocks_for(len);
    let blocks = blocks_for(file_len(v, node));
    let before = file_layout(v, node);
    let kept = trimmed(before, keep);
    let image = published(record, kept, len);
    let goal = half_resizes(v, node, len);
    let clip = clips(v, node, len);
    assert(file_len(v, node) <= MAX_FILE_BYTES);
    let v1 = layout_step(v, record).volume;
    assert(layout_step(v, record).result->Ok_0 == before);
    lemma_same_blocks(v, v1, node);
    lemma_resized_same(v, node, len);
    lemma_always_read(v, v1, goal);
    lemma_published(record, kept, len);
    lemma_store(v1, node, image);
    lemma_store_cut(v1, node, image);
    let v2 = store_step(v1, node, image).volume;
    lemma_published_resized(v, node, len, v2);
    lemma_half_resized_at(v, node, len, v2, with_blocks(v, v2.blocks));
    lemma_always_weaker(v1, v2, either(v1, v2), goal);
    lemma_always_both(v, v1, v2, goal);
    let v3 = write_indirect_step(v2, kept, kept.indirect != 0).volume;
    assert(clipped(v, node, len, v3)) by {
        let t = table_block(v.geometry, node);
        let m = v.geometry.inode_bitmap;
        let bb = v.geometry.block_bitmap;
        assert(v.geometry.structural(m) && v.geometry.structural(bb) && v.geometry.structural(t));
        assert(t != m && t != bb);
        if kept.indirect != 0 {
            assert(ownable(v, before.indirect));
            lemma_write(v2, kept.indirect, indirect_bytes(kept.data));
        }
        assert(bitmap_of(v3) == bitmap_of(v));
        assert forall|other: NodeId| valid_node(other) && other != node implies #[trigger] node_kept(
            v,
            v3,
            other,
        ) by {
            assert(file_record(v2, other) == file_record(v1, other));
            assert(v.geometry.structural(table_block(v.geometry, other)));
        }
        assert(file_record(v3, node) == image);
    }
    lemma_clipped(v, node, len, v3);
    lemma_half_resized_at(v, node, len, v3, with_blocks(v, v3.blocks));
    lemma_always_both_writes(v, v2, v3, kept, kept.indirect != 0, goal);
    assert forall|blocks: Seq<Seq<u8>>| #[trigger] clip(blocks) implies goal(blocks) by {
        lemma_clipped(v, node, len, with_blocks(v, blocks));
    }
    assert(blocks <= TABLE_LEN);
    lemma_release_all_clipped(v, node, len, v3, keep, blocks);
    let v4 = release_all(v3, before.data, keep, blocks).volume;
    lemma_always_weaker(v3, v4, clip, goal);
    lemma_always_both(v, v3, v4, goal);
    if keep <= DIRECT_BLOCKS && before.indirect != 0 {
        assert(dropped(before, keep, before.indirect as int));
        lemma_release_clipped(v, node, len, v4, before.indirect);
        lemma_always_weaker(v4, w, clip, goal);
        lemma_always_both(v, v4, w, goal);
    }
}

proof fn lemma_resized_same(v: Volume, node: NodeId, len: int)
    requires
        healthy_file(v, node),
    ensures
        half_resized(v, node, len, v),
        half_resizes(v, node, len)(v.blocks),
{
    assert(with_blocks(v, v.blocks) == v);
}

/// A change of length that is cut short by a loss of power leaves the file sound, with its old or
/// its new length, and with what it held as far as both reach. Nothing else that was in use has
/// changed.
pub proof fn law_an_interrupted_truncation_is_harmless(v: Volume, node: NodeId, len: u64, k: int)
    requires
        healthy_file(v, node),
        truncate_step(v, node, len).result is Ok,
        v.log.len() <= k <= truncate_step(v, node, len).volume.log.len(),
    ensures
        half_resized(v, node, len as int, cut(v, truncate_step(v, node, len).volume.log, k)),
{
    let w = truncate_step(v, node, len).volume;
    let u = load_step(v, node).volume;
    assert(u == v.ticked());
    lemma_same_blocks(v, u, node);
    let y = cut(v, w.log, k);
    if len == file_len(v, node) {
        assert(w.log.subrange(v.log.len() as int, k) =~= Seq::empty());
        lemma_resized_same(v, node, len as int);
        assert(y == v);
    } else {
        if len > file_len(v, node) {
            lemma_grow_cut(u, node, len as int);
        } else {
            lemma_shrink_cut(u, node, len as int);
        }
        let x = cut(u, w.log, k);
        assert(half_resizes(u, node, len as int)(x.blocks));
        let z = with_blocks(u, x.blocks);
        assert(half_resized(u, node, len as int, z));
        assert(y.blocks == x.blocks);
        lemma_same_blocks(z, y, node);
        assert forall|other: NodeId| valid_node(other) && other != node implies #[trigger] node_kept(
            v,
            y,
            other,
        ) by {
            assert(node_kept(u, z, other));
        }
        assert forall|b: u32|
            #[trigger] ownable(v, b) && !owns(file_layout(v, node), b as int) implies y.blocks[
        b as int] == v.blocks[b as int] && marked(bitmap_of(y), b as int) by {
            assert(ownable(u, b));
        }
    }
}

/// A change of length that is complete is one that was not cut short at all.
pub(crate) proof fn lemma_truncate_resized(v: Volume, node: NodeId, len: u64)
    requires
        healthy_file(v, node),
        truncate_step(v, node, len).result is Ok,
    ensures
        half_resized(v, node, len as int, truncate_step(v, node, len).volume),
{
    let w = truncate_step(v, node, len).volume;
    let u = load_step(v, node).volume;
    assert(u == v.ticked());
    lemma_same_blocks(v, u, node);
    if len == file_len(v, node) {
        lemma_resized_same(v, node, len as int);
        lemma_half_resized_at(v, node, len as int, v, w);
    } else {
        if len > file_len(v, node) {
            lemma_grow_cut(u, node, len as int);
        } else {
            lemma_shrink_cut(u, node, len as int);
        }
        let k = w.log.len() as int;
        assert(half_resizes(u, node, len as int)(cut(u, w.log, k).blocks));
        law_an_interrupted_truncation_is_harmless(v, node, len, k);
        let y = cut(v, w.log, k);
        assert(y.blocks == w.blocks);
        law_truncate_sets_the_length(v, node, len);
        law_changes_are_honest(v, node, Seq::empty(), 0, Seq::empty(), len);
        lemma_half_resized_at(v, node, len as int, y, w);
    }
}

} // verus!
