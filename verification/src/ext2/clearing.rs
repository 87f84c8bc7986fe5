//! Removing a file or a directory succeeds where the counts have room and the device carries out
//! every request.
use vstd::prelude::*;

use crate::bytes::{le16, splice, to_le16};
use crate::fs::NodeId;

use super::allocator::{
    adjust_counts_step, inode_counter, mark_step, release_inode_step, with_mark, PROFILE_INODES,
    RESERVED_INODES,
};
use super::contents::{
    file_layout, file_len, file_record, healthy_file, layout_in, lemma_same_blocks, lemma_write,
    ownable, owns, sound,
};
use super::directory::{
    block_limit, blocks_for, find, lookup_step, named, only_read, remove_from, remove_step,
    resolve_dir_step, without,
};
use super::entries::{entries_of, lacks, law_an_entry_is_taken_out_of_its_block};
use super::inode::{pointer_of, store_step, table_block, valid_node, INODE_BYTES};
use super::making::{lemma_list_answered, lemma_load_answered, lemma_lookup_answered};
use super::mutation::{
    cleared, detach_step, discard_step, drop_directory_step, layout_step, release_all,
    release_indirect_step, remove_dir_step, require_empty_step, unlink_file_step, used_dirs_step,
    TABLE_LEN,
};
use super::on_disk::{GROUP_DESCRIPTOR_USED_DIRS, INODE_LINKS};
use super::removal::{
    law_a_removed_directory_is_gone, law_a_removed_file_is_gone, left, lemma_discard, lemma_remove,
    lost, no_links,
};
use super::resizing::{countable, lemma_release, lemma_releases, lemma_store_aside, node_counts};
use super::space::{lemma_answered, lemma_counts, lemma_stores, ready, used_dirs};
use super::tree::{
    apart, directory_blocks, entries, gathered, healthy_dir, lemma_find, lemma_load_directory_block,
    lemma_reread, lemma_used_dirs, node_kept,
};
use super::volume::Volume;
use super::{Ext2Error, PROFILE_BLOCKS};

verus! {

/// The file system's own counts have room for one more free node and for a file's blocks.
pub open spec fn countable_node(v: Volume) -> bool {
    &&& countable(v, TABLE_LEN + 1)
    &&& node_counts(v).0 < u32::MAX
    &&& node_counts(v).1 < u16::MAX
}

proof fn lemma_remove_from_succeeds(v: Volume, u: Volume, dir: NodeId, l: int, name: Seq<u8>)
    requires
        healthy_dir(v, dir),
        only_read(v, u),
        ready(u),
        0 <= l <= blocks_for(file_len(v, dir)),
        lacks(gathered(directory_blocks(v, dir), file_len(v, dir), l), name),
        find(entries(v, dir), name) is Some,
    ensures
        remove_from(u, dir, file_record(v, dir), l, name).result is Ok,
        ready(remove_from(u, dir, file_record(v, dir), l, name).volume),
    decreases blocks_for(file_len(v, dir)) - l,
{
    let record = file_record(v, dir);
    let len = file_len(v, dir);
    let blocks = directory_blocks(v, dir);
    if l < blocks_for(len) {
        lemma_load_directory_block(v, u, dir, l);
        let number = file_layout(v, dir).data[l];
        let limit = block_limit(len, l);
        let found = resolve_dir_step(u, record, l);
        assert(found.result is Ok && ready(found.volume));
        lemma_answered(found.volume, number, Seq::empty());
        let loaded = found.volume.read_for_update(number);
        let block = blocks[l];
        assert(loaded.result->Ok_0 == block);
        let here = entries_of(block, 0, limit)->0;
        law_an_entry_is_taken_out_of_its_block(block, limit, name);
        match without(block, None, 0, limit, name) {
            Err(_) => {},
            Ok(None) => {
                let first = gathered(blocks, len, l);
                let more = gathered(blocks, len, l + 1);
                assert forall|i: int| 0 <= i < more.len() implies (#[trigger] more[i]).name != Some(
                    name,
                ) by {
                    if i < first.len() {
                        assert(more[i] == first[i]);
                    } else {
                        assert(more[i] == here[i - first.len()]);
                    }
                }
                lemma_remove_from_succeeds(v, loaded.volume, dir, l + 1, name);
            },
            Ok(Some((node, after))) => {
                lemma_answered(loaded.volume, number, after);
                lemma_write(loaded.volume, number, after);
                let v1 = loaded.volume.write_through(number, after).volume;
                assert(v.geometry.structural(table_block(v.geometry, dir)));
                assert(file_record(v1, dir) == record);
                lemma_load_answered(v1, dir);
                lemma_store_aside(v1.ticked(), dir, record);
            },
        }
    } else {
        lemma_find(entries(v, dir), name);
        assert(gathered(blocks, len, l) == entries(v, dir));
    }
}

/// Taking out the entry that names a node succeeds.
proof fn lemma_detach_succeeds(v: Volume, dir: NodeId, name: Seq<u8>, child: NodeId)
    requires
        healthy_dir(v, dir),
        ready(v),
        find(entries(v, dir), name) == Some(child),
    ensures
        ({
            let s = detach_step(v, dir, name, child);
            &&& s.result is Ok
            &&& ready(s.volume)
            &&& left(v, dir, name, child, s.volume)
            &&& s.volume.blocks[0] == v.blocks[0]
            &&& s.volume.blocks[1] == v.blocks[1]
        }),
{
    reveal(remove_step);
    lemma_load_answered(v, dir);
    lemma_remove_from_succeeds(v, v.ticked(), dir, 0, name);
    lemma_remove(v, dir, name);
    let s = remove_step(v, dir, name);
    let node = s.result->Ok_0;
    lemma_find(entries(v, dir), name);
    let k = choose|k: int|
        0 <= k < entries(v, dir).len() && (#[trigger] entries(v, dir)[k]).name == Some(name)
            && entries(v, dir)[k].node == child && lacks(entries(v, dir).take(k), name);
    assert(node == child);
    let layout = file_layout(v, dir);
    assert(!owns(layout, 0));
    assert(!owns(layout, 1)) by {
        if owns(layout, 1) && layout.indirect != 1 {
            let i = choose|i: int| 0 <= i < layout.data.len() && #[trigger] layout.data[i] == 1;
            assert(ownable(v, layout.data[i]));
        }
    }
}

/// A node can be released.
proof fn lemma_release_inode_succeeds(v: Volume, n: u32)
    requires
        ready(v),
        RESERVED_INODES < n <= PROFILE_INODES,
        node_counts(v).0 < u32::MAX,
        node_counts(v).1 < u16::MAX,
    ensures
        release_inode_step(v, n).result is Ok,
        ready(release_inode_step(v, n).volume),
        used_dirs(release_inode_step(v, n).volume) == used_dirs(v),
{
    reveal(release_inode_step);
    reveal(mark_step);
    let ib = v.geometry.inode_bitmap;
    lemma_answered(v, ib, Seq::empty());
    let u = v.ticked();
    let changed = with_mark(v.blocks[ib as int], n - 1, false);
    lemma_write(u, ib, changed);
    lemma_answered(u, ib, changed);
    let t = u.write(ib, changed).volume;
    assert(t.blocks[0] == v.blocks[0] && t.blocks[1] == v.blocks[1]);
    lemma_counts(t, inode_counter(), false);
    let x = adjust_counts_step(t, inode_counter(), false).volume;
    lemma_answered(x, 0, Seq::empty());
    let w = release_inode_step(v, n).volume;
    assert(w.blocks == x.blocks);
    let at = GROUP_DESCRIPTOR_USED_DIRS as int;
    assert(forall|i: int| at <= i < at + 2 ==> #[trigger] w.blocks[1][i] == v.blocks[1][i]);
}

/// A node with a sound layout can be discarded.
proof fn lemma_discard_succeeds(v: Volume, node: NodeId, record: Seq<u8>)
    requires
        ready(v),
        valid_node(node),
        node.0 > RESERVED_INODES,
        record.len() == INODE_BYTES,
        sound(v, layout_in(v, record)),
        countable_node(v),
    ensures
        discard_step(v, node, record).result is Ok,
        ready(discard_step(v, node, record).volume),
        used_dirs(discard_step(v, node, record).volume) == used_dirs(v),
{
    reveal(discard_step);
    let layout = layout_in(v, record);
    assert(layout.indirect == pointer_of(record, 12));
    if layout.indirect != 0 {
        lemma_answered(v, layout.indirect, Seq::empty());
    }
    let v1 = layout_step(v, record).volume;
    assert(layout_step(v, record).result == Ok::<_, Ext2Error>(layout));
    assert(cleared(record).len() == INODE_BYTES);
    lemma_store_aside(v1, node, cleared(record));
    let v2 = store_step(v1, node, cleared(record)).volume;
    assert forall|i: int| 0 <= i < TABLE_LEN && #[trigger] layout.data[i] != 0 implies layout.data[i]
        < PROFILE_BLOCKS && !v2.geometry.structural(layout.data[i]) by {
        assert(ownable(v, layout.data[i]));
    }
    lemma_releases(v2, layout.data, 0, TABLE_LEN as int, TABLE_LEN + 1);
    let v3 = release_all(v2, layout.data, 0, TABLE_LEN as int).volume;
    if layout.indirect != 0 {
        lemma_release(v3, layout.indirect, 1);
    }
    let v4 = release_indirect_step(v3, layout.indirect).volume;
    lemma_release_inode_succeeds(v4, node.0);
}

/// A node that shares no block with a directory keeps its layout when an entry of the directory is
/// taken out.
proof fn lemma_layout_left(v: Volume, dir: NodeId, name: Seq<u8>, child: NodeId, w: Volume)
    requires
        left(v, dir, name, child, w),
        valid_node(child),
        sound(v, file_layout(v, child)),
        apart(file_layout(v, child), file_layout(v, dir)),
    ensures
        layout_in(w, file_record(v, child)) == file_layout(v, child),
        sound(w, file_layout(v, child)),
{
    let layout = file_layout(v, child);
    if layout.indirect != 0 {
        assert(ownable(v, layout.indirect));
        assert(owns(layout, layout.indirect as int));
        assert(!owns(file_layout(v, dir), layout.indirect as int));
    }
    assert forall|i: int| 0 <= i < TABLE_LEN && #[trigger] layout.data[i] != 0 implies ownable(
        w,
        layout.data[i],
    ) && layout.data[i] != layout.indirect by {
        assert(ownable(v, layout.data[i]));
    }
}

/// Removing a file succeeds where the counts have room for its node and its blocks and the device
/// carries out every request. The file is gone from its directory then.
pub proof fn law_removing_a_file_succeeds(v: Volume, parent: NodeId, name: Seq<u8>, child: NodeId)
    requires
        healthy_dir(v, parent),
        no_links(entries(v, parent)),
        ready(v),
        find(entries(v, parent), name) == Some(child),
        healthy_file(v, child),
        child.0 > RESERVED_INODES,
        apart(file_layout(v, child), file_layout(v, parent)),
        countable_node(v),
    ensures
        unlink_file_step(v, parent, name).result is Ok,
        lost(v, parent, name, child, unlink_file_step(v, parent, name).volume),
{
    lemma_lookup_answered(v, parent, name);
    let v1 = lookup_step(v, parent, name).volume;
    lemma_load_answered(v1, child);
    let v2 = v1.ticked();
    lemma_reread(v, v2, parent);
    lemma_detach_succeeds(v2, parent, name, child);
    let v3 = detach_step(v2, parent, name, child).volume;
    lemma_same_blocks(v, v2, child);
    lemma_layout_left(v2, parent, name, child, v3);
    lemma_discard_succeeds(v3, child, file_record(v, child));
    law_a_removed_file_is_gone(v, parent, name);
}

/// Counting a directory less succeeds.
proof fn lemma_used_dirs_succeeds(v: Volume)
    requires
        ready(v),
        used_dirs(v) > 0,
    ensures
        used_dirs_step(v, false).result is Ok,
        ready(used_dirs_step(v, false).volume),
{
    lemma_used_dirs(v, false);
    lemma_answered(v, 1, Seq::empty());
    let at = GROUP_DESCRIPTOR_USED_DIRS as int;
    lemma_answered(
        v.ticked(),
        1,
        splice(v.blocks[1], at, to_le16((used_dirs(v) - 1) as u16)),
    );
}

/// A healthy directory without named entries is found to be empty.
proof fn lemma_empty_succeeds(v: Volume, dir: NodeId)
    requires
        healthy_dir(v, dir),
        ready(v),
        named(entries(v, dir)).len() == 0,
    ensures
        require_empty_step(v, dir).result == Ok::<_, Ext2Error>(file_record(v, dir)),
        only_read(v, require_empty_step(v, dir).volume),
        ready(require_empty_step(v, dir).volume),
{
    reveal(require_empty_step);
    lemma_load_answered(v, dir);
    let u = v.ticked();
    lemma_reread(v, u, dir);
    lemma_list_answered(u, dir);
}

proof fn lemma_drop_succeeds(v: Volume, parent: NodeId, name: Seq<u8>, child: NodeId)
    requires
        healthy_dir(v, parent),
        ready(v),
        find(entries(v, parent), name) == Some(child),
        healthy_dir(v, child),
        child != parent,
        child.0 > RESERVED_INODES,
        apart(file_layout(v, child), file_layout(v, parent)),
        countable_node(v),
        used_dirs(v) > 0,
        le16(file_record(v, parent), INODE_LINKS as int) > 0,
    ensures
        drop_directory_step(v, parent, name, child, file_record(v, child)).result is Ok,
{
    reveal(drop_directory_step);
    let record = file_record(v, child);
    lemma_detach_succeeds(v, parent, name, child);
    let v3 = detach_step(v, parent, name, child).volume;
    lemma_layout_left(v, parent, name, child, v3);
    lemma_discard_succeeds(v3, child, record);
    lemma_discard(v3, child, record);
    let v4 = discard_step(v3, child, record).volume;
    lemma_used_dirs_succeeds(v4);
    lemma_used_dirs(v4, false);
    let v5 = used_dirs_step(v4, false).volume;
    let b = table_block(v.geometry, parent);
    assert(v.geometry.structural(b) && b >= 2);
    assert(node_kept(v, v3, parent));
    assert(node_kept(v3, v4, parent));
    assert(file_record(v5, parent) == file_record(v, parent));
    lemma_load_answered(v5, parent);
    let links = le16(file_record(v, parent), INODE_LINKS as int) - 1;
    lemma_stores(
        v5.ticked(),
        parent,
        splice(file_record(v, parent), INODE_LINKS as int, to_le16(links as u16)),
    );
}

/// Removing a directory without named entries succeeds where the counts have room for its node and
/// its blocks and count it and its link, and the device carries out every request. The directory
/// is gone from its parent then.
pub proof fn law_removing_a_directory_succeeds(
    v: Volume,
    parent: NodeId,
    name: Seq<u8>,
    child: NodeId,
)
    requires
        healthy_dir(v, parent),
        no_links(entries(v, parent)),
        ready(v),
        find(entries(v, parent), name) == Some(child),
        healthy_dir(v, child),
        named(entries(v, child)).len() == 0,
        child != parent,
        child.0 > RESERVED_INODES,
        apart(file_layout(v, child), file_layout(v, parent)),
        countable_node(v),
        used_dirs(v) > 0,
        le16(file_record(v, parent), INODE_LINKS as int) > 0,
    ensures
        remove_dir_step(v, parent, name).result is Ok,
        lost(v, parent, name, child, remove_dir_step(v, parent, name).volume),
{
    lemma_lookup_answered(v, parent, name);
    let v1 = lookup_step(v, parent, name).volume;
    lemma_reread(v, v1, child);
    lemma_empty_succeeds(v1, child);
    let v2 = require_empty_step(v1, child).volume;
    lemma_reread(v, v2, parent);
    lemma_reread(v, v2, child);
    lemma_drop_succeeds(v2, parent, name, child);
    law_a_removed_directory_is_gone(v, parent, name);
}

} // verus!
