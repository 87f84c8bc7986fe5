//! What a loss of power in the course of a removal leaves.
use vstd::prelude::*;

use crate::block::DeviceOp;
use crate::bytes::{lemma_le16_written, splice, to_le16};
use crate::fs::NodeId;

use super::allocator::{
    block_counter, inode_counter, lemma_with_mark, marked, release_block_step, release_inode_step,
    with_mark,
};
use super::contents::{
    bitmap_of, file_layout, file_len, file_record, law_release_frees_the_block, layout_in,
    lemma_store, lemma_write, ownable, owns, same_frame,
};
use super::cut::{
    always, cut, either, lemma_always_both, lemma_always_read, lemma_always_weaker,
    lemma_always_write, lemma_mark_cut, lemma_parent_links_cut, lemma_store_cut,
    lemma_used_dirs_cut, touched, with_blocks,
};
use super::cut_creation::lemma_steady_frame;
use super::directory::{
    block_limit, blocks_for, find, lookup_step, only_read, remove_from, remove_step,
    resolve_dir_step, without, Entry,
};
use super::entries::law_an_entry_is_taken_out_of_its_block;
use super::inode::{
    load_step, record_start, store_step, supported, table_block, valid_node, INODE_BYTES,
};
use super::laws::law_reading_changes_nothing;
use super::mutation::{
    cleared, detach_step, discard_step, drop_directory_step, layout_step, parent_links_step,
    published, release_all, release_indirect_step, remove_dir_step, require_empty_step,
    unlink_file_step, used_dirs_step, Layout, TABLE_LEN,
};
use super::on_disk::{INODE_LINKS, INODE_MODE};
use super::removal::{
    left, lemma_named, lemma_no_links, lemma_release_inode, lemma_remove, no_links,
};
use super::tree::{
    apart, directory_blocks, entries, healthy_dir, in_use, law_lookup_gives_the_entry,
    lemma_block_changed, lemma_directory_kept, lemma_find, lemma_load_directory_block, lemma_owned,
    lemma_parent_links, lemma_reread, lemma_same_directory, lemma_used_dirs, node_kept,
};
use super::volume::Volume;
use super::PROFILE_BLOCKS;

verus! {

/// Taking an entry out of a directory is done as a whole.
proof fn lemma_remove_from_cut(v: Volume, u: Volume, dir: NodeId, l: int, name: Seq<u8>)
    requires
        healthy_dir(v, dir),
        only_read(v, u),
        0 <= l <= blocks_for(file_len(v, dir)),
        remove_from(u, dir, file_record(v, dir), l, name).result is Ok,
    ensures
        ({
            let w = remove_from(u, dir, file_record(v, dir), l, name).volume;
            always(v, w, either(v, w))
        }),
    decreases blocks_for(file_len(v, dir)) - l,
{
    let record = file_record(v, dir);
    let len = file_len(v, dir);
    let w = remove_from(u, dir, record, l, name).volume;
    if l < blocks_for(len) {
        lemma_load_directory_block(v, u, dir, l);
        let number = file_layout(v, dir).data[l];
        let limit = block_limit(len, l);
        let found = resolve_dir_step(u, record, l);
        let loaded = found.volume.read_for_update(number);
        let block = directory_blocks(v, dir)[l];
        assert(loaded.result->Ok_0 == block);
        law_an_entry_is_taken_out_of_its_block(block, limit, name);
        match without(block, None, 0, limit, name) {
            Err(_) => {},
            Ok(None) => lemma_remove_from_cut(v, loaded.volume, dir, l + 1, name),
            Ok(Some((node, after))) => {
                lemma_write(loaded.volume, number, after);
                let v1 = loaded.volume.write_through(number, after).volume;
                lemma_block_changed(v, v1, dir, l, after);
                assert(node_kept(v, v1, dir));
                let v2 = load_step(v1, dir).volume;
                lemma_store(v2, dir, record);
                lemma_store_cut(v2, dir, record);
                let t = table_block(v.geometry, dir) as int;
                assert(splice(v2.blocks[t], record_start(dir), record) =~= v2.blocks[t]);
                assert(w.blocks =~= v1.blocks);
                let goal = either(v, w);
                lemma_always_read(v, loaded.volume, goal);
                lemma_always_write(loaded.volume, number, after, goal);
                lemma_always_both(v, loaded.volume, v1, goal);
                lemma_always_read(v1, v2, goal);
                lemma_always_both(v, v1, v2, goal);
                lemma_always_weaker(v2, w, either(v2, w), goal);
                lemma_always_both(v, v2, w, goal);
            },
        }
    }
}

/// A node with a layout is on its way out: its record is cleared, and marks of its blocks may be
/// gone. Other nodes keep their records and marks, other blocks their marks, and all blocks of
/// files their content.
spec fn fading(u: Volume, node: NodeId, layout: Layout, x: Volume) -> bool {
    &&& same_frame(u, x)
    &&& forall|other: NodeId|
        valid_node(other) && other != node ==> #[trigger] node_kept(u, x, other)
    &&& forall|b: int|
        0 <= b < PROFILE_BLOCKS && !owns(layout, b) ==> #[trigger] marked(bitmap_of(x), b) == marked(
            bitmap_of(u),
            b,
        )
    &&& forall|b: u32|
        b < PROFILE_BLOCKS && !u.geometry.structural(b) ==> #[trigger] x.blocks[b as int]
            == u.blocks[b as int]
    &&& !supported(file_record(x, node))
}

spec fn fades(u: Volume, node: NodeId, layout: Layout) -> spec_fn(Seq<Seq<u8>>) -> bool {
    |blocks: Seq<Seq<u8>>| fading(u, node, layout, with_blocks(u, blocks))
}

/// Where the accounts are touched and no mark but one that may go changes, a node goes on fading.
proof fn lemma_fading_touched(
    u: Volume,
    node: NodeId,
    layout: Layout,
    v: Volume,
    b: u32,
    blocks: Seq<Seq<u8>>,
)
    requires
        u.wf(),
        valid_node(node),
        fading(u, node, layout, v),
        b < PROFILE_BLOCKS,
        owns(layout, b as int),
        touched(v, v.geometry.block_bitmap, with_mark(bitmap_of(v), b as int, false), blocks),
    ensures
        fading(u, node, layout, with_blocks(u, blocks)),
{
    let x = with_blocks(u, blocks);
    let m = u.geometry.block_bitmap;
    assert(u.geometry.structural(m) && m >= 2);
    assert forall|other: NodeId| valid_node(other) implies file_record(x, other) == file_record(
        v,
        other,
    ) by {
        let t = table_block(u.geometry, other);
        assert(u.geometry.structural(t) && t != m && t >= 2);
    }
    let i = u.geometry.inode_bitmap;
    assert(i != m && i >= 2);
    assert(x.blocks[i as int] == v.blocks[i as int]);
    assert forall|other: NodeId| valid_node(other) && other != node implies #[trigger] node_kept(
        u,
        x,
        other,
    ) by {
        assert(node_kept(u, v, other));
    }
    assert forall|c: int| 0 <= c < PROFILE_BLOCKS && !owns(layout, c) implies #[trigger] marked(
        bitmap_of(x),
        c,
    ) == marked(bitmap_of(u), c) by {
        lemma_with_mark(bitmap_of(v), b as int, false, c);
        assert(marked(bitmap_of(v), c) == marked(bitmap_of(u), c));
    }
    assert forall|c: u32| c < PROFILE_BLOCKS && !u.geometry.structural(c) implies #[trigger] x.blocks[
    c as int] == u.blocks[c as int] by {
        assert(c >= 2 && c != m);
        assert(v.blocks[c as int] == u.blocks[c as int]);
    }
}

/// Releasing a block of a node that is on its way out.
proof fn lemma_release_cut(u: Volume, node: NodeId, layout: Layout, v: Volume, b: u32)
    requires
        u.wf(),
        valid_node(node),
        fading(u, node, layout, v),
        owns(layout, b as int),
    ensures
        release_block_step(v, b).result is Ok ==> {
            let w = release_block_step(v, b).volume;
            &&& always(v, w, fades(u, node, layout))
            &&& fading(u, node, layout, w)
        },
{
    reveal(release_block_step);
    if release_block_step(v, b).result is Ok {
        let w = release_block_step(v, b).volume;
        let m = v.geometry.block_bitmap;
        assert(v.geometry.structural(m) && m >= 2);
        let bitmap = with_mark(bitmap_of(v), b as int, false);
        let r = v.read_for_update(m).volume;
        lemma_mark_cut(r, m, bitmap, block_counter(), false);
        let holds = |blocks: Seq<Seq<u8>>| touched(r, m, bitmap, blocks);
        let goal = fades(u, node, layout);
        assert forall|blocks: Seq<Seq<u8>>| #[trigger] holds(blocks) implies goal(blocks) by {
            assert(touched(v, m, bitmap, blocks));
            lemma_fading_touched(u, node, layout, v, b, blocks);
        }
        lemma_always_weaker(r, w, holds, goal);
        assert(holds(r.blocks));
        lemma_always_read(v, r, goal);
        lemma_always_both(v, r, w, goal);
        law_release_frees_the_block(v, b);
        lemma_fades_last(u, node, layout, v, w);
    }
}

proof fn lemma_fades_last(u: Volume, node: NodeId, layout: Layout, v: Volume, w: Volume)
    requires
        always(v, w, fades(u, node, layout)),
        same_frame(u, w),
        valid_node(node),
    ensures
        fading(u, node, layout, w),
{
    assert(fades(u, node, layout)(cut(v, w.log, w.log.len() as int).blocks));
    let x = with_blocks(u, w.blocks);
    assert(fading(u, node, layout, x));
    assert(x.blocks == w.blocks && bitmap_of(x) == bitmap_of(w));
    assert forall|b: u32| b < PROFILE_BLOCKS && !u.geometry.structural(b) implies #[trigger] w.blocks[
    b as int] == u.blocks[b as int] by {
        assert(x.blocks[b as int] == u.blocks[b as int]);
    }
    assert forall|b: int| 0 <= b < PROFILE_BLOCKS && !owns(layout, b) implies #[trigger] marked(
        bitmap_of(w),
        b,
    ) == marked(bitmap_of(u), b) by {
        assert(marked(bitmap_of(x), b) == marked(bitmap_of(u), b));
    }
    assert(file_record(x, node) == file_record(w, node));
    assert forall|other: NodeId| valid_node(other) && other != node implies #[trigger] node_kept(
        u,
        w,
        other,
    ) by {
        assert(node_kept(u, x, other));
    }
}

proof fn lemma_release_all_cut(
    u: Volume,
    node: NodeId,
    layout: Layout,
    v: Volume,
    from: int,
)
    requires
        u.wf(),
        valid_node(node),
        layout.data.len() == TABLE_LEN,
        0 <= from <= TABLE_LEN,
        fading(u, node, layout, v),
        fades(u, node, layout)(v.blocks),
    ensures
        release_all(v, layout.data, from, TABLE_LEN as int).result is Ok ==> {
            let w = release_all(v, layout.data, from, TABLE_LEN as int).volume;
            &&& always(v, w, fades(u, node, layout))
            &&& fading(u, node, layout, w)
        },
    decreases TABLE_LEN - from,
{
    let goal = fades(u, node, layout);
    if from == TABLE_LEN {
        lemma_always_read(v, v, goal);
    } else if layout.data[from] == 0 {
        lemma_release_all_cut(u, node, layout, v, from + 1);
    } else {
        let b = layout.data[from];
        assert(owns(layout, b as int));
        lemma_release_cut(u, node, layout, v, b);
        let s = release_block_step(v, b);
        if s.result is Ok {
            assert(goal(cut(v, s.volume.log, s.volume.log.len() as int).blocks));
            lemma_release_all_cut(u, node, layout, s.volume, from + 1);
            let t = release_all(s.volume, layout.data, from + 1, TABLE_LEN as int);
            if t.result is Ok {
                lemma_always_both(v, s.volume, t.volume, goal);
            }
        }
    }
}

/// Releasing the inode of a node that is on its way out.
proof fn lemma_release_inode_cut(u: Volume, node: NodeId, layout: Layout, v: Volume)
    requires
        u.wf(),
        valid_node(node),
        fading(u, node, layout, v),
    ensures
        release_inode_step(v, node.0).result is Ok ==> {
            let w = release_inode_step(v, node.0).volume;
            &&& always(v, w, fades(u, node, layout))
            &&& fading(u, node, layout, w)
        },
{
    lemma_release_inode(v, node.0);
    reveal(release_inode_step);
    if release_inode_step(v, node.0).result is Ok {
        let w = release_inode_step(v, node.0).volume;
        let m = v.geometry.inode_bitmap;
        assert(v.geometry.structural(m) && m >= 2);
        let old_bitmap = v.blocks[m as int];
        let bitmap = with_mark(old_bitmap, node.0 - 1, false);
        let r = v.read_for_update(m).volume;
        lemma_mark_cut(r, m, bitmap, inode_counter(), false);
        let holds = |blocks: Seq<Seq<u8>>| touched(r, m, bitmap, blocks);
        let goal = fades(u, node, layout);
        assert forall|blocks: Seq<Seq<u8>>| #[trigger] holds(blocks) implies goal(blocks) by {
            let x = with_blocks(u, blocks);
            assert forall|other: NodeId| valid_node(other) implies file_record(x, other)
                == file_record(v, other) by {
                let t = table_block(u.geometry, other);
                assert(u.geometry.structural(t) && t != m && t >= 2);
            }
            assert forall|other: NodeId|
                valid_node(other) && other != node implies #[trigger] node_kept(u, x, other) by {
                assert(node_kept(u, v, other));
                lemma_with_mark(old_bitmap, node.0 - 1, false, other.0 - 1);
            }
            let i = u.geometry.block_bitmap;
            assert(i != m && i >= 2);
            assert(bitmap_of(x) == bitmap_of(v));
            assert forall|c: u32|
                c < PROFILE_BLOCKS && !u.geometry.structural(c) implies #[trigger] x.blocks[c as int]
                == u.blocks[c as int] by {
                assert(c >= 2 && c != m);
                assert(v.blocks[c as int] == u.blocks[c as int]);
            }
        }
        lemma_always_weaker(r, w, holds, goal);
        assert(holds(r.blocks));
        lemma_always_read(v, r, goal);
        lemma_always_both(v, r, w, goal);
        lemma_fades_last(u, node, layout, v, w);
    }
}

/// A cleared record is of no kind.
proof fn lemma_cleared(record: Seq<u8>)
    requires
        record.len() == INODE_BYTES,
    ensures
        cleared(record).len() == INODE_BYTES,
        !supported(cleared(record)),
{
    let bare = published(
        record,
        Layout { indirect: 0, data: Seq::new(TABLE_LEN as nat, |i: int| 0u32) },
        0,
    );
    let links = splice(bare, INODE_LINKS as int, to_le16(0));
    lemma_le16_written(links, INODE_MODE as int, 0);
}

/// Discarding a node is cut short before its record is cleared or while it fades.
#[verifier::rlimit(40)]
proof fn lemma_discard_cut(u: Volume, node: NodeId, record: Seq<u8>)
    requires
        u.wf(),
        valid_node(node),
        record.len() == INODE_BYTES,
        discard_step(u, node, record).result is Ok,
    ensures
        ({
            let w = discard_step(u, node, record).volume;
            let layout = layout_in(u, record);
            &&& always(
                u,
                w,
                |blocks: Seq<Seq<u8>>| blocks == u.blocks || fades(u, node, layout)(blocks),
            )
            &&& fading(u, node, layout, w)
        }),
{
    reveal(discard_step);
    let w = discard_step(u, node, record).volume;
    let layout = layout_in(u, record);
    let fade = fades(u, node, layout);
    let goal = |blocks: Seq<Seq<u8>>| blocks == u.blocks || fades(u, node, layout)(blocks);
    let v1 = layout_step(u, record).volume;
    assert(layout_step(u, record).result->Ok_0 == layout);
    lemma_always_read(u, v1, goal);
    lemma_cleared(record);
    let image = cleared(record);
    lemma_store(v1, node, image);
    lemma_store_cut(v1, node, image);
    let v2 = store_step(v1, node, image).volume;
    let t = table_block(u.geometry, node);
    let m = u.geometry.inode_bitmap;
    assert(u.geometry.structural(m) && t != m && u.geometry.structural(t));
    assert forall|other: NodeId| valid_node(other) && other != node implies #[trigger] node_kept(
        u,
        v2,
        other,
    ) by {
        assert(file_record(v2, other) == file_record(v1, other));
    }
    assert(bitmap_of(v2) == bitmap_of(u));
    assert(fading(u, node, layout, v2));
    let x = with_blocks(u, v2.blocks);
    assert forall|other: NodeId| valid_node(other) && other != node implies #[trigger] node_kept(
        u,
        x,
        other,
    ) by {
        assert(node_kept(u, v2, other));
    }
    assert(fade(v2.blocks));
    lemma_always_weaker(v1, v2, either(v1, v2), goal);
    lemma_always_both(u, v1, v2, goal);
    lemma_release_all_cut(u, node, layout, v2, 0);
    let v3 = release_all(v2, layout.data, 0, TABLE_LEN as int).volume;
    lemma_always_weaker(v2, v3, fade, goal);
    lemma_always_both(u, v2, v3, goal);
    let v4 = release_indirect_step(v3, layout.indirect).volume;
    if layout.indirect != 0 {
        assert(owns(layout, layout.indirect as int));
        lemma_release_cut(u, node, layout, v3, layout.indirect);
        lemma_always_weaker(v3, v4, fade, goal);
        lemma_always_both(u, v3, v4, goal);
    }
    lemma_release_inode_cut(u, node, layout, v4);
    lemma_always_weaker(v4, w, fade, goal);
    lemma_always_both(u, v4, w, goal);
}

/// What a removal that was cut short leaves: nothing was done, or the directory holds the entries
/// `after`; it is sound in either case. The node that is removed is still as it was, with all its
/// blocks, or its record is cleared, so that no record names a block that is free. Other nodes
/// keep their records and marks, other blocks their marks, and blocks that were in use outside
/// the directory their content.
pub open spec fn withdrawn(
    v: Volume,
    dir: NodeId,
    node: NodeId,
    after: Seq<Entry>,
    x: Volume,
) -> bool {
    &&& same_frame(v, x)
    &&& healthy_dir(x, dir)
    &&& x.blocks == v.blocks || entries(x, dir) == after
    &&& !supported(file_record(x, node)) || file_record(x, node) == file_record(v, node)
        && bitmap_of(x) == bitmap_of(v)
    &&& forall|other: NodeId|
        valid_node(other) && other != node && other != dir ==> #[trigger] node_kept(v, x, other)
    &&& forall|b: int|
        0 <= b < PROFILE_BLOCKS && !owns(file_layout(v, node), b) ==> #[trigger] marked(
            bitmap_of(x),
            b,
        ) == marked(bitmap_of(v), b)
    &&& forall|b: u32|
        #[trigger] ownable(v, b) && !owns(file_layout(v, dir), b as int) ==> x.blocks[b as int]
            == v.blocks[b as int]
}

spec fn withdraws(v: Volume, dir: NodeId, node: NodeId, after: Seq<Entry>) -> spec_fn(
    Seq<Seq<u8>>,
) -> bool {
    |blocks: Seq<Seq<u8>>| withdrawn(v, dir, node, after, with_blocks(v, blocks))
}

/// What matters is the blocks.
proof fn lemma_withdrawn_at(
    v: Volume,
    dir: NodeId,
    node: NodeId,
    after: Seq<Entry>,
    u: Volume,
    x: Volume,
)
    requires
        withdrawn(v, dir, node, after, u),
        same_frame(v, x),
        x.blocks == u.blocks,
        valid_node(node),
    ensures
        withdrawn(v, dir, node, after, x),
{
    lemma_same_directory(u, x, dir);
    assert forall|other: NodeId|
        valid_node(other) && other != node && other != dir implies #[trigger] node_kept(
        v,
        x,
        other,
    ) by {
        assert(node_kept(v, u, other));
    }
    assert(bitmap_of(x) == bitmap_of(u));
    assert(file_record(x, node) == file_record(u, node));
}

/// A node that fades after its entry was taken out is withdrawn.
proof fn lemma_fading_withdrawn(
    v: Volume,
    dir: NodeId,
    name: Seq<u8>,
    node: NodeId,
    u: Volume,
    x: Volume,
)
    requires
        left(v, dir, name, node, u),
        no_links(entries(v, dir)),
        valid_node(node),
        node != dir,
        apart(file_layout(v, node), file_layout(v, dir)),
        fading(u, node, file_layout(v, node), x),
    ensures
        withdrawn(v, dir, node, entries(u, dir), x),
        entries(x, dir) == entries(u, dir),
{
    let layout = file_layout(u, dir);
    lemma_no_links(entries(v, dir), name, node, entries(u, dir));
    assert(node_kept(u, x, dir));
    assert forall|i: int| 0 <= i < entries(u, dir).len() implies node_kept(
        u,
        x,
        (#[trigger] entries(u, dir)[i]).node,
    ) by {
        assert(in_use(u, entries(u, dir)[i].node, entries(u, dir)[i].kind));
    }
    assert forall|b: int| 0 <= b < PROFILE_BLOCKS && #[trigger] owns(layout, b) implies x.blocks[b]
        == u.blocks[b] && marked(bitmap_of(x), b) by {
        lemma_owned(u, layout, b);
        assert(ownable(u, b as u32));
        assert(x.blocks[(b as u32) as int] == u.blocks[b]);
        assert(!owns(file_layout(v, node), b));
        assert(marked(bitmap_of(x), b) == marked(bitmap_of(u), b));
    }
    lemma_directory_kept(u, x, dir);
    assert forall|other: NodeId|
        valid_node(other) && other != node && other != dir implies #[trigger] node_kept(
        v,
        x,
        other,
    ) by {
        assert(node_kept(v, u, other));
        assert(node_kept(u, x, other));
    }
    assert forall|b: u32|
        #[trigger] ownable(v, b) && !owns(file_layout(v, dir), b as int) implies x.blocks[b as int]
        == v.blocks[b as int] by {
        assert(u.blocks[b as int] == v.blocks[b as int]);
        assert(x.blocks[b as int] == u.blocks[b as int]);
    }
}

/// Taking an entry out and discarding what it named, cut short.
#[verifier::rlimit(40)]
proof fn lemma_drop_cut(v: Volume, dir: NodeId, name: Seq<u8>, node: NodeId)
    requires
        healthy_dir(v, dir),
        no_links(entries(v, dir)),
        valid_node(node),
        node != dir,
        apart(file_layout(v, node), file_layout(v, dir)),
        detach_step(v, dir, name, node).result is Ok,
        discard_step(
            detach_step(v, dir, name, node).volume,
            node,
            file_record(v, node),
        ).result is Ok,
    ensures
        ({
            let u = detach_step(v, dir, name, node).volume;
            let w = discard_step(u, node, file_record(v, node)).volume;
            &&& always(v, w, withdraws(v, dir, node, entries(w, dir)))
            &&& withdrawn(v, dir, node, entries(w, dir), w)
            &&& !supported(file_record(w, node))
        }),
{
    let u = detach_step(v, dir, name, node).volume;
    let record = file_record(v, node);
    let w = discard_step(u, node, record).volume;
    lemma_remove(v, dir, name);
    assert(left(v, dir, name, node, u));
    assert(table_block(v.geometry, node) < PROFILE_BLOCKS);
    assert(record.len() == INODE_BYTES);
    let theirs = file_layout(v, node);
    assert(layout_in(u, record) == theirs) by {
        if theirs.indirect != 0 {
            assert(owns(theirs, theirs.indirect as int));
            reveal(discard_step);
            assert(layout_step(u, record).result is Ok);
            assert(u.blocks[theirs.indirect as int] == v.blocks[theirs.indirect as int]);
        }
    }
    lemma_discard_cut(u, node, record);
    lemma_fading_withdrawn(v, dir, name, node, u, w);
    let after = entries(u, dir);
    let goal = withdraws(v, dir, node, after);
    assert(entries(w, dir) == after);
    let fade = |blocks: Seq<Seq<u8>>| blocks == u.blocks || fades(u, node, theirs)(blocks);
    assert(withdrawn(v, dir, node, after, u)) by {
        assert(node_kept(v, u, node));
    }
    assert forall|blocks: Seq<Seq<u8>>| #[trigger] fade(blocks) implies goal(blocks) by {
        let x = with_blocks(v, blocks);
        if blocks == u.blocks {
            lemma_withdrawn_at(v, dir, node, after, u, x);
        } else {
            let y = with_blocks(u, blocks);
            lemma_fading_withdrawn(v, dir, name, node, u, y);
            lemma_withdrawn_at(v, dir, node, after, y, x);
        }
    }
    lemma_always_weaker(u, w, fade, goal);
    reveal(remove_step);
    let r = load_step(v, dir).volume;
    lemma_remove_from_cut(v, r, dir, 0, name);
    assert(goal(u.blocks)) by {
        assert(fade(u.blocks));
    }
    assert(goal(v.blocks)) by {
        assert(with_blocks(v, v.blocks) == v);
    }
    lemma_always_weaker(v, u, either(v, u), goal);
    lemma_always_both(v, u, w, goal);
}

/// Removing a file is done as a whole or not at all, as far as its directory is concerned:
/// wherever it is cut short by a loss of power, the directory is sound, and nothing was done or
/// the entry is gone. No record then names a block that is free.
pub proof fn law_a_file_is_removed_as_a_whole(
    v: Volume,
    parent: NodeId,
    name: Seq<u8>,
    child: NodeId,
    k: int,
)
    requires
        healthy_dir(v, parent),
        no_links(entries(v, parent)),
        find(entries(v, parent), name) == Some(child),
        apart(file_layout(v, child), file_layout(v, parent)),
        unlink_file_step(v, parent, name).result is Ok,
        v.log.len() <= k <= unlink_file_step(v, parent, name).volume.log.len(),
    ensures
        ({
            let w = unlink_file_step(v, parent, name).volume;
            withdrawn(v, parent, child, entries(w, parent), cut(v, w.log, k))
        }),
{
    law_lookup_gives_the_entry(v, parent, name);
    let w = unlink_file_step(v, parent, name).volume;
    let v1 = lookup_step(v, parent, name).volume;
    let v2 = load_step(v1, child).volume;
    lemma_reread(v, v2, parent);
    lemma_drop_cut(v2, parent, name, child);
    lemma_withdraws_from(v, parent, child, v2, w, entries(w, parent));
    assert(withdraws(v, parent, child, entries(w, parent))(cut(v, w.log, k).blocks));
}

/// Reading beforehand makes no difference.
proof fn lemma_withdraws_from(
    v: Volume,
    dir: NodeId,
    node: NodeId,
    u: Volume,
    w: Volume,
    after: Seq<Entry>,
)
    requires
        healthy_dir(v, dir),
        valid_node(node),
        only_read(v, u),
        always(u, w, withdraws(u, dir, node, after)),
    ensures
        always(v, w, withdraws(v, dir, node, after)),
{
    let goal = withdraws(v, dir, node, after);
    assert forall|blocks: Seq<Seq<u8>>| #[trigger] withdraws(u, dir, node, after)(blocks) implies goal(
        blocks,
    ) by {
        let y = with_blocks(u, blocks);
        let x = with_blocks(v, blocks);
        lemma_withdrawn_at(u, dir, node, after, y, Volume { clock: u.clock, ..x });
        lemma_same_directory(y, x, dir);
        assert forall|other: NodeId|
            valid_node(other) && other != node && other != dir implies #[trigger] node_kept(
            v,
            x,
            other,
        ) by {
            assert(node_kept(u, y, other));
        }
        assert(bitmap_of(x) == bitmap_of(y));
        assert(file_record(x, node) == file_record(y, node));
        assert(file_layout(u, node) == file_layout(v, node));
        assert(file_layout(u, dir) == file_layout(v, dir));
        assert forall|b: u32|
            #[trigger] ownable(v, b) && !owns(file_layout(v, dir), b as int) implies x.blocks[
        b as int] == v.blocks[b as int] by {
            assert(ownable(u, b));
        }
    }
    lemma_always_weaker(u, w, withdraws(u, dir, node, after), goal);
    assert(goal(u.blocks)) by {
        assert(withdraws(u, dir, node, after)(cut(u, w.log, u.log.len() as int).blocks));
        assert(w.log.subrange(u.log.len() as int, u.log.len() as int) =~= Seq::<DeviceOp>::empty());
    }
    lemma_always_read(v, u, goal);
    lemma_always_both(v, u, w, goal);
}

/// Removing a directory is done as a whole or not at all, as far as its parent is concerned:
/// wherever it is cut short by a loss of power, the parent is sound, and nothing was done or the
/// entry is gone. No record then names a block that is free.
#[verifier::rlimit(40)]
pub proof fn law_a_directory_is_removed_as_a_whole(
    v: Volume,
    parent: NodeId,
    name: Seq<u8>,
    child: NodeId,
    k: int,
)
    requires
        healthy_dir(v, parent),
        no_links(entries(v, parent)),
        find(entries(v, parent), name) == Some(child),
        apart(file_layout(v, child), file_layout(v, parent)),
        remove_dir_step(v, parent, name).result is Ok,
        v.log.len() <= k <= remove_dir_step(v, parent, name).volume.log.len(),
    ensures
        ({
            let w = remove_dir_step(v, parent, name).volume;
            withdrawn(v, parent, child, entries(w, parent), cut(v, w.log, k))
        }),
{
    law_lookup_gives_the_entry(v, parent, name);
    lemma_find(entries(v, parent), name);
    let v1 = lookup_step(v, parent, name).volume;
    lemma_reread(v, v1, parent);
    reveal(require_empty_step);
    reveal(drop_directory_step);
    let v2 = require_empty_step(v1, child).volume;
    let record = require_empty_step(v1, child).result->Ok_0;
    law_reading_changes_nothing(load_step(v1, child).volume, child, name, 0, Seq::empty());
    assert(only_read(v, v2));
    assert(record == file_record(v, child));
    if child == parent {
        let u = load_step(v1, child).volume;
        lemma_reread(v, u, parent);
        law_lookup_gives_the_entry(u, parent, name);
        lemma_named(entries(v, parent), name);
    }
    lemma_reread(v, v2, parent);
    lemma_drop_cut(v2, parent, name, child);
    let v3 = detach_step(v2, parent, name, child).volume;
    let v4 = discard_step(v3, child, record).volume;
    let after = entries(v4, parent);
    let goal = withdraws(v2, parent, child, after);
    lemma_used_dirs(v4, false);
    lemma_used_dirs_cut(v4, false);
    let v5 = used_dirs_step(v4, false).volume;
    assert(v.geometry.block_bitmap >= 2 && v.geometry.inode_bitmap >= 2);
    assert(bitmap_of(v5) == bitmap_of(v4));
    assert forall|node: NodeId| valid_node(node) implies #[trigger] node_kept(v4, v5, node) by {
        let t = table_block(v.geometry, node);
        assert(v.geometry.structural(t) && t >= 2);
    }
    lemma_steady_frame_any(v4, v5, parent);
    assert forall|other: NodeId|
        valid_node(other) && other != child && other != parent implies #[trigger] node_kept(
        v2,
        v5,
        other,
    ) by {
        assert(node_kept(v2, v4, other));
        assert(node_kept(v4, v5, other));
    }
    assert(node_kept(v4, v5, child));
    assert forall|b: u32|
        #[trigger] ownable(v2, b) && !owns(file_layout(v2, parent), b as int) implies v5.blocks[
    b as int] == v2.blocks[b as int] by {
        assert(b >= 2);
        assert(v5.blocks[b as int] == v4.blocks[b as int]);
    }
    assert(withdrawn(v2, parent, child, after, v5));
    lemma_withdrawn_at(v2, parent, child, after, v4, with_blocks(v2, v4.blocks));
    lemma_withdrawn_at(v2, parent, child, after, v5, with_blocks(v2, v5.blocks));
    lemma_always_weaker(v4, v5, either(v4, v5), goal);
    lemma_always_both(v2, v4, v5, goal);
    lemma_parent_links(v5, parent, false);
    lemma_parent_links_cut(v5, parent, false);
    let w = parent_links_step(v5, parent, false).volume;
    assert forall|other: NodeId|
        valid_node(other) && other != child && other != parent implies #[trigger] node_kept(
        v2,
        w,
        other,
    ) by {
        assert(node_kept(v2, v5, other));
        assert(node_kept(v5, w, other));
    }
    assert(node_kept(v5, w, child));
    assert forall|b: u32|
        #[trigger] ownable(v2, b) && !owns(file_layout(v2, parent), b as int) implies w.blocks[
    b as int] == v2.blocks[b as int] by {
        assert(v.geometry.structural(table_block(v.geometry, parent)));
        assert(w.blocks[b as int] == v5.blocks[b as int]);
    }
    assert(withdrawn(v2, parent, child, after, w));
    lemma_withdrawn_at(v2, parent, child, after, w, with_blocks(v2, w.blocks));
    lemma_always_weaker(v5, w, either(v5, w), goal);
    lemma_always_both(v2, v5, w, goal);
    assert(w == remove_dir_step(v, parent, name).volume);
    lemma_withdraws_from(v, parent, child, v2, w, after);
    assert(withdraws(v, parent, child, after)(cut(v, w.log, k).blocks));
}

/// A directory is kept where the blocks behind the superblock and the group descriptor are.
proof fn lemma_steady_frame_any(v: Volume, x: Volume, dir: NodeId)
    requires
        healthy_dir(v, dir),
        same_frame(v, x),
        forall|c: int| 2 <= c < PROFILE_BLOCKS ==> #[trigger] x.blocks[c] == v.blocks[c],
    ensures
        healthy_dir(x, dir),
        entries(x, dir) == entries(v, dir),
{
    assert(v.geometry.block_bitmap >= 2 && v.geometry.inode_bitmap >= 2);
    assert forall|node: NodeId| valid_node(node) implies #[trigger] node_kept(v, x, node) by {
        let t = table_block(v.geometry, node);
        assert(v.geometry.structural(t) && t >= 2);
    }
    assert(bitmap_of(x) == bitmap_of(v));
    assert forall|b: u32| #[trigger] ownable(v, b) implies x.blocks[b as int] == v.blocks[b as int] by {
        assert(b >= 2);
    }
    lemma_steady_frame(v, x, dir, dir);
}

} // verus!
