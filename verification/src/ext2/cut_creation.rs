//! What a loss of power in the course of a creation leaves.
use vstd::prelude::*;

use crate::bytes::{le32, lemma_le16_written, zeros};
use crate::fs::{name_check, NodeId, NodeKind};

use super::allocator::{
    block_counter, claim_block_step, claim_inode_step, inode_counter, lemma_with_mark, marked,
    with_mark,
};
use super::contents::{
    accounting, bitmap_of, file_layout, file_len, file_record, law_claim_takes_a_free_block,
    law_claim_takes_a_free_inode, lemma_claim_marks, lemma_store, lemma_write, marks_grow, ownable,
    owns, same_frame,
};
use super::creation::{
    blank_block, lemma_claim_inode, lemma_found_directory, lemma_insert, lemma_insert_existing,
    lemma_insert_fresh, lemma_new_directory_block, lemma_new_directory_record,
    lemma_new_file_record, lemma_require_absent, lemma_widened, lemma_widened_by,
};
use super::cut::{
    always, cut, either, lemma_always_both, lemma_always_read, lemma_always_weaker,
    lemma_always_write, lemma_mark_cut, lemma_parent_links_cut, lemma_store_cut,
    lemma_used_dirs_cut, touched, with_blocks,
};
use super::directory::{
    block_limit, blocks_for, dot_name, encoded, grown, insert_existing, insert_fresh, insert_step,
    kind_of, only_read, placed, record_at, resolve_dir_step, type_of, without, Entry, NewEntry,
};
use super::entries::{entries_of, insertable, lacks, lemma_encoded_parts};
use super::inode::{load_step, store_step, table_block, valid_node};
use super::mutation::{
    create_dir_step, create_file_step, found_directory_step, new_directory_block,
    new_directory_record, new_file_record, parent_links_step, require_absent_step, used_dirs_step,
};
use super::on_disk::{BLOCK_BYTES, DIRECTORY_RECORD_LENGTH};
use super::tree::{
    entries, healthy_dir, in_use, lemma_directory_kept, lemma_kept_by, lemma_load_directory_block,
    lemma_owned, lemma_parent_links, lemma_reread, lemma_same_directory, lemma_used_dirs, node_kept,
};
use super::volume::Volume;
use super::{Ext2Error, PROFILE_BLOCKS};

verus! {

/// Outside a directory and one node that was not in use, nothing that was in use has changed.
pub open spec fn spared(v: Volume, dir: NodeId, spare: NodeId, x: Volume) -> bool {
    &&& same_frame(v, x)
    &&& marks_grow(v, x)
    &&& forall|node: NodeId|
        valid_node(node) && node != dir && node != spare ==> #[trigger] node_kept(v, x, node)
    &&& forall|b: u32|
        #[trigger] ownable(v, b) && !owns(file_layout(v, dir), b as int) ==> x.blocks[b as int]
            == v.blocks[b as int] && !owns(file_layout(x, dir), b as int)
}

/// Besides, the directory holds the entries that it held.
pub open spec fn steady(v: Volume, dir: NodeId, spare: NodeId, x: Volume) -> bool {
    &&& spared(v, dir, spare, x)
    &&& healthy_dir(x, dir)
    &&& entries(x, dir) == entries(v, dir)
}

/// Besides, the directory is sound, and holds the entries that it held unless the change is
/// complete.
pub open spec fn settled(v: Volume, dir: NodeId, spare: NodeId, x: Volume, w: Volume) -> bool {
    &&& spared(v, dir, spare, x)
    &&& healthy_dir(x, dir)
    &&& entries(x, dir) == entries(v, dir) || x.blocks == w.blocks
}

spec fn stays(v: Volume, dir: NodeId, spare: NodeId) -> spec_fn(Seq<Seq<u8>>) -> bool {
    |blocks: Seq<Seq<u8>>| steady(v, dir, spare, with_blocks(v, blocks))
}

spec fn settles(v: Volume, dir: NodeId, spare: NodeId, w: Volume) -> spec_fn(
    Seq<Seq<u8>>,
) -> bool {
    |blocks: Seq<Seq<u8>>| settled(v, dir, spare, with_blocks(v, blocks), w)
}

proof fn lemma_steady_both(v: Volume, dir: NodeId, spare: NodeId, u: Volume, x: Volume)
    requires
        steady(v, dir, spare, u),
        steady(u, dir, spare, x),
    ensures
        steady(v, dir, spare, x),
{
    assert forall|node: NodeId|
        valid_node(node) && node != dir && node != spare implies #[trigger] node_kept(
        v,
        x,
        node,
    ) by {
        assert(node_kept(v, u, node));
        assert(node_kept(u, x, node));
    }
    assert forall|b: u32|
        #[trigger] ownable(v, b) && !owns(file_layout(v, dir), b as int) implies x.blocks[b as int]
        == v.blocks[b as int] && !owns(file_layout(x, dir), b as int) by {
        assert(ownable(u, b));
    }
}

/// What matters is the blocks.
proof fn lemma_steady_at(v: Volume, dir: NodeId, spare: NodeId, u: Volume, x: Volume)
    requires
        steady(v, dir, spare, u),
        same_frame(v, x),
        x.blocks == u.blocks,
    ensures
        steady(v, dir, spare, x),
{
    lemma_same_directory(u, x, dir);
    assert forall|node: NodeId|
        valid_node(node) && node != dir && node != spare implies #[trigger] node_kept(
        v,
        x,
        node,
    ) by {
        assert(node_kept(v, u, node));
    }
}

/// What holds seen from a later state holds seen from an earlier one.
proof fn lemma_stays_from(v: Volume, dir: NodeId, spare: NodeId, u: Volume, w: Volume)
    requires
        steady(v, dir, spare, u),
        always(u, w, stays(u, dir, spare)),
    ensures
        always(u, w, stays(v, dir, spare)),
{
    assert forall|blocks: Seq<Seq<u8>>| #[trigger] stays(u, dir, spare)(blocks) implies stays(
        v,
        dir,
        spare,
    )(blocks) by {
        lemma_steady_both(v, dir, spare, u, with_blocks(u, blocks));
        lemma_steady_at(v, dir, spare, with_blocks(u, blocks), with_blocks(v, blocks));
    }
    lemma_always_weaker(u, w, stays(u, dir, spare), stays(v, dir, spare));
}

/// A change that is steady wherever it is cut short ends steadily.
proof fn lemma_stays_last(v: Volume, dir: NodeId, spare: NodeId, w: Volume)
    requires
        always(v, w, stays(v, dir, spare)),
        same_frame(v, w),
    ensures
        steady(v, dir, spare, w),
{
    assert(stays(v, dir, spare)(cut(v, w.log, w.log.len() as int).blocks));
    lemma_steady_at(v, dir, spare, with_blocks(v, w.blocks), w);
}

/// Claiming an inode is steady.
proof fn lemma_claim_inode_cut(v: Volume, dir: NodeId)
    requires
        healthy_dir(v, dir),
    ensures
        claim_inode_step(v).result matches Ok(number) ==> always(
            v,
            claim_inode_step(v).volume,
            stays(v, dir, NodeId(number)),
        ),
{
    lemma_claim_inode(v, dir);
    law_claim_takes_a_free_inode(v);
    reveal(claim_inode_step);
    if let Ok(number) = claim_inode_step(v).result {
        let spare = NodeId(number);
        let m = v.geometry.inode_bitmap;
        let old_bitmap = v.blocks[m as int];
        let bitmap = with_mark(old_bitmap, number - 1, true);
        let u = v.read_for_update(m).volume;
        assert(v.geometry.structural(m) && m >= 2);
        lemma_mark_cut(u, m, bitmap, inode_counter(), true);
        let w = claim_inode_step(v).volume;
        let holds = |blocks: Seq<Seq<u8>>| touched(u, m, bitmap, blocks);
        let goal = stays(v, dir, spare);
        assert forall|blocks: Seq<Seq<u8>>| #[trigger] holds(blocks) implies goal(blocks) by {
            let x = with_blocks(v, blocks);
            assert forall|node: NodeId| valid_node(node) && node != spare implies #[trigger] node_kept(
                v,
                x,
                node,
            ) by {
                lemma_with_mark(old_bitmap, number - 1, true, node.0 - 1);
                let t = table_block(v.geometry, node);
                assert(v.geometry.structural(t) && t != m && t >= 2);
            }
            assert(bitmap_of(x) == bitmap_of(v));
            assert forall|b: u32| #[trigger] ownable(v, b) implies x.blocks[b as int]
                == v.blocks[b as int] by {
                assert(b >= 2 && b != m);
            }
            lemma_kept_by(v, x, dir, spare);
        }
        lemma_always_weaker(u, w, holds, goal);
        lemma_reread(v, u, dir);
        assert(goal(v.blocks)) by {
            assert(holds(u.blocks));
        }
        lemma_always_read(v, u, goal);
        lemma_always_both(v, u, w, goal);
    }
}

/// Claiming a block is steady.
proof fn lemma_claim_block_cut(v: Volume, dir: NodeId, spare: NodeId)
    requires
        healthy_dir(v, dir),
    ensures
        claim_block_step(v).result is Ok ==> always(
            v,
            claim_block_step(v).volume,
            stays(v, dir, spare),
        ),
{
    law_claim_takes_a_free_block(v);
    reveal(claim_block_step);
    if let Ok(number) = claim_block_step(v).result {
        let m = v.geometry.block_bitmap;
        let old_bitmap = v.blocks[m as int];
        let bitmap = with_mark(old_bitmap, number as int, true);
        let u = v.read_for_update(m).volume;
        assert(v.geometry.structural(m) && m >= 2);
        lemma_mark_cut(u, m, bitmap, block_counter(), true);
        let w = claim_block_step(v).volume;
        let holds = |blocks: Seq<Seq<u8>>| touched(u, m, bitmap, blocks);
        let goal = stays(v, dir, spare);
        assert forall|blocks: Seq<Seq<u8>>| #[trigger] holds(blocks) implies goal(blocks) by {
            let x = with_blocks(v, blocks);
            assert forall|node: NodeId| valid_node(node) implies #[trigger] node_kept(
                v,
                x,
                node,
            ) by {
                let t = table_block(v.geometry, node);
                assert(v.geometry.structural(t) && t != m && t >= 2);
                let i = v.geometry.inode_bitmap;
                assert(i != m && i >= 2);
            }
            assert forall|c: int|
                0 <= c < PROFILE_BLOCKS && #[trigger] marked(bitmap_of(v), c) implies marked(
                bitmap_of(x),
                c,
            ) by {
                lemma_with_mark(old_bitmap, number as int, true, c);
            }
            assert forall|b: u32| #[trigger] ownable(v, b) implies x.blocks[b as int]
                == v.blocks[b as int] by {
                assert(b >= 2 && b != m);
            }
            lemma_steady_frame(v, x, dir, spare);
        }
        lemma_always_weaker(u, w, holds, goal);
        assert(goal(v.blocks)) by {
            assert(holds(u.blocks));
        }
        lemma_always_read(v, u, goal);
        lemma_always_both(v, u, w, goal);
    }
}

/// Where every node and every block that was in use is kept, all is steady.
pub(crate) proof fn lemma_steady_frame(v: Volume, x: Volume, dir: NodeId, spare: NodeId)
    requires
        healthy_dir(v, dir),
        same_frame(v, x),
        forall|node: NodeId| valid_node(node) ==> #[trigger] node_kept(v, x, node),
        marks_grow(v, x),
        forall|b: u32| #[trigger] ownable(v, b) ==> x.blocks[b as int] == v.blocks[b as int],
    ensures
        steady(v, dir, spare, x),
{
    let layout = file_layout(v, dir);
    assert(node_kept(v, x, dir));
    assert forall|i: int| 0 <= i < entries(v, dir).len() implies node_kept(
        v,
        x,
        (#[trigger] entries(v, dir)[i]).node,
    ) by {
        assert(in_use(v, entries(v, dir)[i].node, entries(v, dir)[i].kind));
    }
    assert forall|b: int| 0 <= b < PROFILE_BLOCKS && #[trigger] owns(layout, b) implies x.blocks[b]
        == v.blocks[b] && marked(bitmap_of(x), b) by {
        lemma_owned(v, layout, b);
        assert(ownable(v, b as u32));
    }
    lemma_directory_kept(v, x, dir);
}

/// Putting an entry into a block that has room is done as a whole.
proof fn lemma_insert_existing_cut(v: Volume, u: Volume, dir: NodeId, l: int, new: NewEntry)
    requires
        healthy_dir(v, dir),
        only_read(v, u),
        0 <= l <= blocks_for(file_len(v, dir)),
    ensures
        ({
            let s = insert_existing(u, file_record(v, dir), l, new);
            s.result is Ok ==> always(v, s.volume, either(v, s.volume))
        }),
    decreases blocks_for(file_len(v, dir)) - l,
{
    let record = file_record(v, dir);
    let len = file_len(v, dir);
    let s = insert_existing(u, record, l, new);
    if s.result is Ok {
        let w = s.volume;
        if l < blocks_for(len) {
            lemma_load_directory_block(v, u, dir, l);
            let number = file_layout(v, dir).data[l];
            let found = resolve_dir_step(u, record, l);
            let loaded = found.volume.read_for_update(number);
            let block = loaded.result->Ok_0;
            match placed(block, 0, block_limit(len, l), new.node, new.file_type, new.name) {
                None => lemma_insert_existing_cut(v, loaded.volume, dir, l + 1, new),
                Some(after) => {
                    lemma_always_read(v, loaded.volume, either(v, w));
                    lemma_always_write(loaded.volume, number, after, either(v, w));
                    lemma_always_both(v, loaded.volume, w, either(v, w));
                },
            }
        } else {
            lemma_always_read(v, w, either(v, w));
        }
    }
}

/// A block of directory records without an entry has none.
pub(crate) proof fn lemma_blank_block()
    ensures
        blank_block().len() == BLOCK_BYTES,
        entries_of(blank_block(), 0, BLOCK_BYTES as int) == Some(Seq::<Entry>::empty()),
{
    let blank = zeros(BLOCK_BYTES as nat);
    lemma_le16_written(blank, DIRECTORY_RECORD_LENGTH as int, 4096);
    let block = blank_block();
    assert(le32(block, 0) == 0);
    assert(record_at(block, 0, BLOCK_BYTES as int) is Ok);
    assert(record_at(block, 0, BLOCK_BYTES as int)->Ok_0.inode == 0);
    assert(entries_of(block, BLOCK_BYTES as int, BLOCK_BYTES as int) == Some(Seq::<Entry>::empty()));
}

/// A change that was steady before its last write settles.
proof fn lemma_settles(v: Volume, dir: NodeId, spare: NodeId, u: Volume, w: Volume)
    requires
        always(v, u, stays(v, dir, spare)),
        same_frame(v, u),
        always(u, w, either(u, w)),
        spared(v, dir, spare, w),
        healthy_dir(w, dir),
    ensures
        always(v, w, settles(v, dir, spare, w)),
{
    let goal = settles(v, dir, spare, w);
    assert forall|blocks: Seq<Seq<u8>>| #[trigger] stays(v, dir, spare)(blocks) implies goal(
        blocks,
    ) by {}
    lemma_always_weaker(v, u, stays(v, dir, spare), goal);
    lemma_stays_last(v, dir, spare, u);
    assert forall|blocks: Seq<Seq<u8>>| #[trigger] either(u, w)(blocks) implies goal(blocks) by {
        let x = with_blocks(v, blocks);
        if blocks == u.blocks {
            lemma_steady_at(v, dir, spare, u, x);
        } else {
            lemma_spared_at(v, dir, spare, w, x);
            lemma_same_directory(w, x, dir);
        }
    }
    lemma_always_weaker(u, w, either(u, w), goal);
    lemma_always_both(v, u, w, goal);
}

proof fn lemma_spared_at(v: Volume, dir: NodeId, spare: NodeId, u: Volume, x: Volume)
    requires
        spared(v, dir, spare, u),
        same_frame(v, x),
        x.blocks == u.blocks,
    ensures
        spared(v, dir, spare, x),
{
    assert forall|node: NodeId|
        valid_node(node) && node != dir && node != spare implies #[trigger] node_kept(
        v,
        x,
        node,
    ) by {
        assert(node_kept(v, u, node));
    }
    assert(file_layout(x, dir) == file_layout(u, dir));
}

/// Giving a directory a block with an entry settles.
proof fn lemma_insert_fresh_cut(v: Volume, dir: NodeId, spare: NodeId, new: NewEntry)
    requires
        healthy_dir(v, dir),
        file_len(v, dir) % (BLOCK_BYTES as int) == 0,
        insertable(new.node, new.file_type, new.name),
        in_use(v, NodeId(new.node), kind_of(new.file_type)->0),
        lacks(entries(v, dir), new.name),
        insert_fresh(v, dir, new).result is Ok,
    ensures
        ({
            let w = insert_fresh(v, dir, new).volume;
            always(v, w, settles(v, dir, spare, w))
        }),
{
    let block = claim_block_step(v).result->Ok_0;
    let content = encoded(new.node, BLOCK_BYTES as int, new.file_type, new.name);
    let v1 = claim_block_step(v).volume;
    let v2 = v1.write_through(block, blank_block()).volume;
    let v3 = load_step(v2, dir).volume;
    let image = grown(file_record(v, dir), blocks_for(file_len(v, dir)), block);
    let v4 = store_step(v3, dir, image).volume;
    let w = insert_fresh(v, dir, new).volume;
    let goal = stays(v, dir, spare);
    lemma_insert_fresh(v, dir, new);
    lemma_blank_block();
    lemma_claim_block_cut(v, dir, spare);
    law_claim_takes_a_free_block(v);
    lemma_stays_last(v, dir, spare, v1);
    lemma_write(v1, block, blank_block());
    assert(marks_grow(v, v2)) by {
        assert(v.geometry.structural(v.geometry.block_bitmap));
        assert(bitmap_of(v2) == bitmap_of(v1));
    }
    assert forall|b: u32| #[trigger] ownable(v, b) implies v2.blocks[b as int] == v.blocks[b as int] by {
        assert(!accounting(v, b as int));
        assert(v1.blocks[b as int] == v.blocks[b as int]);
    }
    lemma_steady_frame(v, v2, dir, spare);
    lemma_steady_at(v, dir, spare, v1, with_blocks(v, v1.blocks));
    lemma_steady_at(v, dir, spare, v2, with_blocks(v, v2.blocks));
    lemma_always_write(v1, block, blank_block(), goal);
    lemma_always_both(v, v1, v2, goal);
    lemma_always_read(v2, v3, goal);
    lemma_always_both(v, v2, v3, goal);
    lemma_widened_by(v, dir, block, blank_block(), v4);
    assert(entries(v4, dir) =~= entries(v, dir));
    assert(steady(v, dir, spare, v4));
    lemma_store_cut(v3, dir, image);
    lemma_steady_at(v, dir, spare, v2, with_blocks(v, v3.blocks));
    lemma_steady_at(v, dir, spare, v4, with_blocks(v, v4.blocks));
    lemma_always_weaker(v3, v4, either(v3, v4), goal);
    lemma_always_both(v, v3, v4, goal);
    lemma_widened(v, dir, block, new, w);
    lemma_encoded_parts(new.node, BLOCK_BYTES as int, new.file_type, new.name);
    lemma_write(v4, block, content);
    lemma_always_write(v4, block, content, either(v4, w));
    lemma_settles(v, dir, spare, v4, w);
}

/// Putting an entry into a directory settles.
proof fn lemma_insert_cut(v: Volume, dir: NodeId, spare: NodeId, new: NewEntry)
    requires
        healthy_dir(v, dir),
        file_len(v, dir) % (BLOCK_BYTES as int) == 0,
        insertable(new.node, new.file_type, new.name),
        in_use(v, NodeId(new.node), kind_of(new.file_type)->0),
        lacks(entries(v, dir), new.name),
        insert_step(v, dir, new).result is Ok,
    ensures
        ({
            let w = insert_step(v, dir, new).volume;
            always(v, w, settles(v, dir, spare, w))
        }),
{
    lemma_insert(v, dir, new);
    reveal(insert_step);
    let w = insert_step(v, dir, new).volume;
    let u = load_step(v, dir).volume;
    let goal = stays(v, dir, spare);
    lemma_reread(v, u, dir);
    lemma_steady_same(v, dir, spare);
    lemma_insert_existing_cut(v, u, dir, 0, new);
    lemma_insert_existing(v, u, dir, 0, new);
    let s = insert_existing(u, file_record(v, dir), 0, new);
    if s.result == Ok::<bool, Ext2Error>(true) {
        lemma_always_read(v, v, goal);
        lemma_settles(v, dir, spare, v, w);
    } else {
        let x = s.volume;
        lemma_reread(v, x, dir);
        lemma_insert_fresh_cut(x, dir, spare, new);
        lemma_settles_from(v, dir, spare, x, w);
    }
}

/// Nothing changes where nothing is done.
proof fn lemma_steady_same(v: Volume, dir: NodeId, spare: NodeId)
    requires
        healthy_dir(v, dir),
    ensures
        steady(v, dir, spare, v),
        stays(v, dir, spare)(v.blocks),
{
    assert(with_blocks(v, v.blocks) == v);
}

/// What settles seen from a state that was steady so far settles seen from the start.
proof fn lemma_settles_from(v: Volume, dir: NodeId, spare: NodeId, u: Volume, w: Volume)
    requires
        always(v, u, stays(v, dir, spare)) || (only_read(v, u) && healthy_dir(v, dir)),
        same_frame(v, u),
        always(u, w, settles(u, dir, spare, w)),
    ensures
        always(v, w, settles(v, dir, spare, w)),
{
    let goal = settles(v, dir, spare, w);
    if !always(v, u, stays(v, dir, spare)) {
        lemma_steady_same(v, dir, spare);
        lemma_always_read(v, u, stays(v, dir, spare));
    }
    lemma_stays_last(v, dir, spare, u);
    assert forall|blocks: Seq<Seq<u8>>| #[trigger] stays(v, dir, spare)(blocks) implies goal(
        blocks,
    ) by {}
    lemma_always_weaker(v, u, stays(v, dir, spare), goal);
    assert forall|blocks: Seq<Seq<u8>>| #[trigger] settles(u, dir, spare, w)(blocks) implies goal(
        blocks,
    ) by {
        let y = with_blocks(u, blocks);
        let x = with_blocks(v, blocks);
        lemma_spared_both(v, dir, spare, u, y);
        lemma_spared_at(v, dir, spare, y, x);
        lemma_same_directory(y, x, dir);
    }
    lemma_always_weaker(u, w, settles(u, dir, spare, w), goal);
    lemma_always_both(v, u, w, goal);
}

proof fn lemma_spared_both(v: Volume, dir: NodeId, spare: NodeId, u: Volume, x: Volume)
    requires
        spared(v, dir, spare, u),
        spared(u, dir, spare, x),
    ensures
        spared(v, dir, spare, x),
{
    assert forall|node: NodeId|
        valid_node(node) && node != dir && node != spare implies #[trigger] node_kept(
        v,
        x,
        node,
    ) by {
        assert(node_kept(v, u, node));
        assert(node_kept(u, x, node));
    }
    assert forall|b: u32|
        #[trigger] ownable(v, b) && !owns(file_layout(v, dir), b as int) implies x.blocks[b as int]
        == v.blocks[b as int] && !owns(file_layout(x, dir), b as int) by {
        assert(ownable(u, b));
    }
}

/// Creating a file is done as a whole or not at all: wherever it is cut short by a loss of power,
/// the directory is sound and holds the entries that it held, unless all is done. Nothing else
/// that was in use has changed.
pub proof fn law_a_file_is_created_as_a_whole(v: Volume, parent: NodeId, name: Seq<u8>, k: int)
    requires
        healthy_dir(v, parent),
        file_len(v, parent) % (BLOCK_BYTES as int) == 0,
        name_check(name) is Ok,
        !dot_name(name),
        create_file_step(v, parent, name).result is Ok,
        v.log.len() <= k <= create_file_step(v, parent, name).volume.log.len(),
    ensures
        ({
            let s = create_file_step(v, parent, name);
            settled(v, parent, s.result->Ok_0, cut(v, s.volume.log, k), s.volume)
        }),
{
    let w = create_file_step(v, parent, name).volume;
    let node = create_file_step(v, parent, name).result->Ok_0;
    let goal = stays(v, parent, node);
    lemma_require_absent(v, parent, name);
    let v1 = require_absent_step(v, parent, name).volume;
    lemma_reread(v, v1, parent);
    lemma_claim_inode(v1, parent);
    lemma_claim_inode_cut(v1, parent);
    let v2 = claim_inode_step(v1).volume;
    assert(node == NodeId(claim_inode_step(v1).result->Ok_0));
    lemma_steady_same(v, parent, node);
    lemma_always_read(v, v1, goal);
    lemma_stays_last(v, parent, node, v1);
    lemma_stays_from(v, parent, node, v1, v2);
    lemma_always_both(v, v1, v2, goal);
    lemma_stays_last(v, parent, node, v2);
    lemma_new_file_record();
    let record = new_file_record();
    lemma_store(v2, node, record);
    let v3 = store_step(v2, node, record).volume;
    lemma_store_cut(v2, node, record);
    let t = table_block(v.geometry, node);
    let m = v.geometry.inode_bitmap;
    assert(v.geometry.structural(m) && t != m);
    assert forall|other: NodeId| valid_node(other) && other != node implies #[trigger] node_kept(
        v1,
        v3,
        other,
    ) by {
        assert(node_kept(v1, v2, other));
    }
    assert(bitmap_of(v3) == bitmap_of(v1));
    lemma_kept_by(v1, v3, parent, node);
    assert(steady(v1, parent, node, v3));
    lemma_steady_both(v, parent, node, v1, v3);
    lemma_steady_at(v, parent, node, v2, with_blocks(v, v2.blocks));
    lemma_steady_at(v, parent, node, v3, with_blocks(v, v3.blocks));
    lemma_always_weaker(v2, v3, either(v2, v3), goal);
    lemma_always_both(v, v2, v3, goal);
    let new = NewEntry { node: node.0, file_type: type_of(NodeKind::Regular), name };
    lemma_insert_cut(v3, parent, node, new);
    lemma_settles_from(v, parent, node, v3, w);
    assert(settles(v, parent, node, w)(cut(v, w.log, k).blocks));
}

/// Where every node but one that was not in use is kept, and every block that was in use, all is
/// steady.
proof fn lemma_steady_but(v: Volume, x: Volume, dir: NodeId, spare: NodeId)
    requires
        healthy_dir(v, dir),
        same_frame(v, x),
        !marked(v.blocks[v.geometry.inode_bitmap as int], spare.0 - 1),
        forall|node: NodeId| valid_node(node) && node != spare ==> #[trigger] node_kept(v, x, node),
        marks_grow(v, x),
        forall|b: u32| #[trigger] ownable(v, b) ==> x.blocks[b as int] == v.blocks[b as int],
    ensures
        steady(v, dir, spare, x),
        stays(v, dir, spare)(x.blocks),
{
    lemma_kept_by(v, x, dir, spare);
    lemma_steady_at(v, dir, spare, x, with_blocks(v, x.blocks));
}

/// Founding a directory is steady.
#[verifier::rlimit(40)]
proof fn lemma_found_directory_cut(v: Volume, u: Volume, parent: NodeId, node: NodeId, block: u32)
    requires
        healthy_dir(v, parent),
        steady(v, parent, node, u),
        node_kept(v, u, parent),
        valid_node(node),
        node != parent,
        !marked(v.blocks[v.geometry.inode_bitmap as int], node.0 - 1),
        ownable(u, block),
        !ownable(v, block),
        forall|b: u32| #[trigger] ownable(v, b) ==> u.blocks[b as int] == v.blocks[b as int],
        found_directory_step(u, parent, node.0, block).result is Ok,
    ensures
        ({
            let w = found_directory_step(u, parent, node.0, block).volume;
            &&& always(u, w, stays(v, parent, node))
            &&& same_frame(v, w)
        }),
{
    reveal(found_directory_step);
    let goal = stays(v, parent, node);
    let record = new_directory_record(block);
    lemma_new_directory_record(block);
    lemma_store(u, node, record);
    lemma_store_cut(u, node, record);
    let v1 = store_step(u, node, record).volume;
    let t = table_block(v.geometry, node);
    let m = v.geometry.inode_bitmap;
    assert(v.geometry.structural(m) && t != m && m >= 2);
    assert forall|other: NodeId| valid_node(other) && other != node implies #[trigger] node_kept(
        v,
        v1,
        other,
    ) by {
        assert(node_kept(v, u, other));
        assert(file_record(v1, other) == file_record(u, other));
    }
    assert(bitmap_of(v1) == bitmap_of(u));
    lemma_steady_but(v, v1, parent, node);
    lemma_steady_at(v, parent, node, u, with_blocks(v, u.blocks));
    lemma_always_weaker(u, v1, either(u, v1), goal);
    let content = new_directory_block(node.0, parent.0);
    lemma_new_directory_block(node.0, parent.0);
    lemma_write(v1, block, content);
    let v2 = v1.write_through(block, content).volume;
    assert forall|other: NodeId| valid_node(other) && other != node implies #[trigger] node_kept(
        v,
        v2,
        other,
    ) by {
        assert(node_kept(v, v1, other));
        assert(v.geometry.structural(table_block(v.geometry, other)));
    }
    assert(v.geometry.structural(v.geometry.block_bitmap));
    assert(bitmap_of(v2) == bitmap_of(v1));
    lemma_steady_but(v, v2, parent, node);
    lemma_always_write(v1, block, content, goal);
    lemma_always_both(u, v1, v2, goal);
    lemma_used_dirs(v2, true);
    lemma_used_dirs_cut(v2, true);
    let v3 = used_dirs_step(v2, true).volume;
    assert forall|other: NodeId| valid_node(other) && other != node implies #[trigger] node_kept(
        v,
        v3,
        other,
    ) by {
        assert(node_kept(v, v2, other));
        let o = table_block(v.geometry, other);
        assert(v.geometry.structural(o) && o >= 2);
    }
    assert(v.geometry.block_bitmap >= 2);
    assert(bitmap_of(v3) == bitmap_of(v2));
    assert forall|b: u32| #[trigger] ownable(v, b) implies v3.blocks[b as int] == v.blocks[b as int] by {
        assert(b >= 2);
    }
    lemma_steady_but(v, v3, parent, node);
    lemma_always_weaker(v2, v3, either(v2, v3), goal);
    lemma_always_both(u, v2, v3, goal);
    lemma_parent_links(v3, parent, true);
    lemma_parent_links_cut(v3, parent, true);
    let w = parent_links_step(v3, parent, true).volume;
    assert(steady(v3, parent, node, w));
    lemma_steady_both(v, parent, node, v3, w);
    lemma_steady_at(v, parent, node, w, with_blocks(v, w.blocks));
    lemma_always_weaker(v3, w, either(v3, w), goal);
    lemma_always_both(u, v3, w, goal);
}

/// Creating a directory is done as a whole or not at all: wherever it is cut short by a loss of
/// power, the parent is sound and holds the entries that it held, unless all is done. Nothing
/// else that was in use has changed.
#[verifier::rlimit(40)]
pub proof fn law_a_directory_is_created_as_a_whole(v: Volume, parent: NodeId, name: Seq<u8>, k: int)
    requires
        healthy_dir(v, parent),
        file_len(v, parent) % (BLOCK_BYTES as int) == 0,
        name_check(name) is Ok,
        !dot_name(name),
        create_dir_step(v, parent, name).result is Ok,
        v.log.len() <= k <= create_dir_step(v, parent, name).volume.log.len(),
    ensures
        ({
            let s = create_dir_step(v, parent, name);
            settled(v, parent, s.result->Ok_0, cut(v, s.volume.log, k), s.volume)
        }),
{
    let w = create_dir_step(v, parent, name).volume;
    let node = create_dir_step(v, parent, name).result->Ok_0;
    let goal = stays(v, parent, node);
    lemma_require_absent(v, parent, name);
    let v1 = require_absent_step(v, parent, name).volume;
    lemma_reread(v, v1, parent);
    lemma_claim_inode(v1, parent);
    lemma_claim_inode_cut(v1, parent);
    let v2 = claim_inode_step(v1).volume;
    assert(node == NodeId(claim_inode_step(v1).result->Ok_0));
    lemma_steady_same(v, parent, node);
    lemma_always_read(v, v1, goal);
    lemma_stays_last(v, parent, node, v1);
    lemma_stays_from(v, parent, node, v1, v2);
    lemma_always_both(v, v1, v2, goal);
    lemma_stays_last(v, parent, node, v2);
    law_claim_takes_a_free_block(v2);
    lemma_claim_marks(v2);
    lemma_claim_block_cut(v2, parent, node);
    let v3 = claim_block_step(v2).volume;
    let block = claim_block_step(v2).result->Ok_0;
    lemma_stays_from(v, parent, node, v2, v3);
    lemma_always_both(v, v2, v3, goal);
    lemma_stays_last(v, parent, node, v3);
    let m = v.geometry.inode_bitmap;
    assert(v.geometry.structural(m) && !accounting(v, m as int));
    assert(v3.blocks[m as int] == v2.blocks[m as int]);
    assert forall|other: NodeId| valid_node(other) implies #[trigger] node_kept(v2, v3, other) by {
        let o = table_block(v.geometry, other);
        assert(v.geometry.structural(o) && !accounting(v, o as int));
        assert(v3.blocks[o as int] == v2.blocks[o as int]);
    }
    assert(node_kept(v, v3, parent)) by {
        assert(node_kept(v1, v2, parent));
        assert(node_kept(v2, v3, parent));
    }
    assert forall|b: u32| #[trigger] ownable(v, b) implies v3.blocks[b as int] == v.blocks[b as int] by {
        assert(ownable(v1, b));
        assert(!accounting(v, b as int));
        assert(v3.blocks[b as int] == v2.blocks[b as int]);
    }
    assert(!owns(file_layout(v3, parent), block as int)) by {
        if owns(file_layout(v2, parent), block as int) {
            lemma_owned(v2, file_layout(v2, parent), block as int);
        }
        assert(file_record(v3, parent) == file_record(v2, parent)) by {
            assert(node_kept(v2, v3, parent));
        }
        lemma_steady_layout(v2, v3, parent);
    }
    assert forall|i: int| 0 <= i < entries(v3, parent).len() implies (#[trigger] entries(
        v3,
        parent,
    )[i]).node.0 != node.0 by {
        assert(in_use(v, entries(v, parent)[i].node, entries(v, parent)[i].kind));
    }
    assert(file_len(v3, parent) == file_len(v, parent));
    lemma_found_directory_cut(v, v3, parent, node, block);
    lemma_found_directory(v3, parent, node.0, block);
    let v4 = found_directory_step(v3, parent, node.0, block).volume;
    lemma_always_both(v, v3, v4, goal);
    let new = NewEntry { node: node.0, file_type: type_of(NodeKind::Directory), name };
    lemma_insert_cut(v4, parent, node, new);
    lemma_settles_from(v, parent, node, v4, w);
    assert(settles(v, parent, node, w)(cut(v, w.log, k).blocks));
}

/// A directory whose record and blocks are kept keeps its layout.
proof fn lemma_steady_layout(v: Volume, w: Volume, dir: NodeId)
    requires
        healthy_dir(v, dir),
        w.geometry == v.geometry,
        file_record(w, dir) == file_record(v, dir),
        forall|c: int|
            0 <= c < PROFILE_BLOCKS && !accounting(v, c) ==> #[trigger] w.blocks[c] == v.blocks[c],
    ensures
        file_layout(w, dir) == file_layout(v, dir),
{
    let layout = file_layout(v, dir);
    if layout.indirect != 0 {
        assert(ownable(v, layout.indirect));
        assert(!accounting(v, layout.indirect as int));
    }
}

} // verus!
