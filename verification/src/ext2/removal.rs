//! What removing files and directories changes, and what it keeps.
use vstd::prelude::*;

use crate::bytes::splice;
use crate::fs::NodeId;

use super::allocator::{
    inode_counter, lemma_with_mark, marked, release_block_step, release_inode_step, with_mark,
};
use super::contents::{
    accounting, bitmap_of, contents, file_layout, file_len, file_record, healthy_file,
    law_release_frees_the_block, layout_in, lemma_mark, lemma_release_all, lemma_store, lemma_write,
    ownable, owns, same_frame,
};
use super::creation::finds;
use super::directory::{
    block_limit, blocks_for, find, lookup_step, named, only_read, remove_from, remove_step,
    resolve_dir_step, without, Entry,
};
use super::entries::{entries_of, lacks, law_an_entry_is_taken_out_of_its_block, taken_out};
use super::inode::{load_step, record_start, store_step, table_block, valid_node, INODE_BYTES};
use super::laws::law_reading_changes_nothing;
use super::mutation::{
    cleared, detach_step, discard_step, drop_directory_step, layout_step, parent_links_step,
    release_all, release_indirect_step, remove_dir_step, require_empty_step, unlink_file_step,
    used_dirs_step, Layout, TABLE_LEN,
};
use super::tree::{
    all_in_use, apart, directory_blocks, distinct_names, entries, gathered, healthy_dir, in_use,
    law_lookup_gives_the_entry, lemma_apart_kept, lemma_block_changed, lemma_directory_kept,
    lemma_file_kept, lemma_find, lemma_gathered_around, lemma_kept_by, lemma_load_directory_block,
    lemma_owned, lemma_parent_links, lemma_reread, lemma_same_directory, lemma_used_dirs, node_kept,
};
use super::volume::Volume;
use super::{Ext2Error, PROFILE_BLOCKS};

verus! {

/// What holds of every entry holds after one was taken out, and the name is gone.
proof fn lemma_taken_out(
    v: Volume,
    before: Seq<Entry>,
    name: Seq<u8>,
    node: NodeId,
    after: Seq<Entry>,
)
    requires
        taken_out(before, name, node, after),
        all_in_use(v, before),
        distinct_names(before),
    ensures
        all_in_use(v, after),
        distinct_names(after),
        lacks(after, name),
        find(after, name) is None,
{
    let k = choose|k: int|
        0 <= k < before.len() && before[k].name == Some(name) && before[k].node == node && lacks(
            before.take(k),
            name,
        ) && after == #[trigger] before.remove(k);
    assert forall|i: int| 0 <= i < after.len() implies in_use(
        v,
        (#[trigger] after[i]).node,
        after[i].kind,
    ) && after[i].name != Some(name) by {
        let a = if i < k {
            i
        } else {
            i + 1
        };
        assert(after[i] == before[a]);
        assert(before[k].name is Some);
    }
    assert forall|i: int, j: int|
        0 <= i < j < after.len() && (#[trigger] after[i]).name is Some implies after[i].name != (
    #[trigger] after[j]).name by {
        let a = if i < k {
            i
        } else {
            i + 1
        };
        let b = if j < k {
            j
        } else {
            j + 1
        };
        assert(after[i] == before[a] && after[j] == before[b]);
    }
    lemma_find(after, name);
}

/// A lookup finds nothing, unless the device fails.
pub open spec fn misses(v: Volume, dir: NodeId, name: Seq<u8>) -> bool {
    lookup_step(v, dir, name).result matches Err(Ext2Error::Block(_)) || lookup_step(
        v,
        dir,
        name,
    ).result == Err::<NodeId, Ext2Error>(Ext2Error::NotFound)
}

proof fn lemma_taken_between(
    first: Seq<Entry>,
    before: Seq<Entry>,
    name: Seq<u8>,
    node: NodeId,
    after: Seq<Entry>,
    rest: Seq<Entry>,
)
    requires
        taken_out(before, name, node, after),
        lacks(first, name),
    ensures
        taken_out(first + before + rest, name, node, first + after + rest),
{
    let k = choose|k: int|
        0 <= k < before.len() && before[k].name == Some(name) && before[k].node == node && lacks(
            before.take(k),
            name,
        ) && after == #[trigger] before.remove(k);
    let all = first + before + rest;
    let at = first.len() + k;
    assert(all[at] == before[k]);
    assert forall|i: int| 0 <= i < all.take(at).len() implies (#[trigger] all.take(at)[i]).name
        != Some(name) by {
        if i < first.len() {
            assert(all[i] == first[i]);
        } else {
            assert(all[i] == before.take(k)[i - first.len()]);
        }
    }
    assert(first + after + rest =~= all.remove(at));
}

/// What taking an entry out of a directory leaves: the other entries. All nodes keep their
/// records, and blocks outside the directory their content.
pub open spec fn left(v: Volume, dir: NodeId, name: Seq<u8>, node: NodeId, w: Volume) -> bool {
    &&& same_frame(v, w)
    &&& healthy_dir(w, dir)
    &&& file_len(w, dir) == file_len(v, dir)
    &&& file_layout(w, dir) == file_layout(v, dir)
    &&& taken_out(entries(v, dir), name, node, entries(w, dir))
    &&& forall|node: NodeId| valid_node(node) ==> #[trigger] node_kept(v, w, node)
    &&& bitmap_of(w) == bitmap_of(v)
    &&& forall|b: int|
        0 <= b < PROFILE_BLOCKS && !owns(file_layout(v, dir), b) ==> #[trigger] w.blocks[b]
            == v.blocks[b]
}

proof fn lemma_remove_from(v: Volume, u: Volume, dir: NodeId, l: int, name: Seq<u8>)
    requires
        healthy_dir(v, dir),
        only_read(v, u),
        0 <= l <= blocks_for(file_len(v, dir)),
        lacks(gathered(directory_blocks(v, dir), file_len(v, dir), l), name),
    ensures
        remove_from(u, dir, file_record(v, dir), l, name).result matches Ok(node) ==> left(
            v,
            dir,
            name,
            node,
            remove_from(u, dir, file_record(v, dir), l, name).volume,
        ),
    decreases blocks_for(file_len(v, dir)) - l,
{
    let record = file_record(v, dir);
    let len = file_len(v, dir);
    let blocks = directory_blocks(v, dir);
    if l < blocks_for(len) && remove_from(u, dir, record, l, name).result is Ok {
        lemma_load_directory_block(v, u, dir, l);
        let number = file_layout(v, dir).data[l];
        let limit = block_limit(len, l);
        let found = resolve_dir_step(u, record, l);
        let loaded = found.volume.read_for_update(number);
        let block = blocks[l];
        assert(loaded.result->Ok_0 == block);
        let here = entries_of(block, 0, limit)->0;
        law_an_entry_is_taken_out_of_its_block(block, limit, name);
        match without(block, None, 0, limit, name) {
            Err(_) => {},
            Ok(None) => {
                let first = gathered(blocks, len, l);
                let more = gathered(blocks, len, l + 1);
                assert forall|i: int| 0 <= i < more.len() implies (#[trigger] more[i]).name != Some(
                    name,
                ) by {
                    if i < first.len() {
                        assert(more[i] == first[i]);
                    } else {
                        assert(more[i] == here[i - first.len()]);
                    }
                }
                lemma_remove_from(v, loaded.volume, dir, l + 1, name);
            },
            Ok(Some((node, after))) => {
                lemma_write(loaded.volume, number, after);
                let v1 = loaded.volume.write_through(number, after).volume;
                lemma_block_changed(v, v1, dir, l, after);
                let (first, rest) = lemma_gathered_around(blocks, len, blocks_for(len), l, after);
                lemma_taken_between(
                    first,
                    here,
                    name,
                    node,
                    entries_of(after, 0, limit)->0,
                    rest,
                );
                assert(all_in_use(v1, entries(v, dir))) by {
                    assert forall|i: int| 0 <= i < entries(v, dir).len() implies in_use(
                        v1,
                        (#[trigger] entries(v, dir)[i]).node,
                        entries(v, dir)[i].kind,
                    ) by {
                        assert(node_kept(v, v1, entries(v, dir)[i].node));
                    }
                }
                lemma_taken_out(v1, entries(v, dir), name, node, entries(v1, dir));
                assert(owns(file_layout(v, dir), number as int));
                assert(left(v, dir, name, node, v1));
                let again = load_step(v1, dir);
                assert(node_kept(v, v1, dir));
                assert(again.result->Ok_0 == record);
                let v2 = again.volume;
                lemma_store(v2, dir, record);
                let w = store_step(v2, dir, record).volume;
                let t = table_block(v.geometry, dir) as int;
                assert(splice(v2.blocks[t], record_start(dir), record) =~= v2.blocks[t]);
                assert(w.blocks =~= v1.blocks);
                lemma_same_directory(v1, w, dir);
                assert forall|n: NodeId| valid_node(n) implies #[trigger] node_kept(v, w, n) by {
                    assert(node_kept(v, v1, n));
                }
            },
        }
    }
}

/// Taking an entry out of a directory keeps the others.
pub(crate) proof fn lemma_remove(v: Volume, dir: NodeId, name: Seq<u8>)
    requires
        healthy_dir(v, dir),
    ensures
        remove_step(v, dir, name).result matches Ok(node) ==> left(
            v,
            dir,
            name,
            node,
            remove_step(v, dir, name).volume,
        ),
{
    reveal(remove_step);
    let u = load_step(v, dir).volume;
    lemma_remove_from(v, u, dir, 0, name);
}

/// Releasing blocks takes their marks.
proof fn lemma_release_frees(v: Volume, data: Seq<u32>, from: int, to: int)
    requires
        v.wf(),
        0 <= from,
    ensures
        release_all(v, data, from, to).result is Ok ==> {
            let w = release_all(v, data, from, to).volume;
            &&& same_frame(v, w)
            &&& forall|c: int|
                0 <= c < PROFILE_BLOCKS && #[trigger] marked(bitmap_of(w), c) ==> marked(
                    bitmap_of(v),
                    c,
                )
            &&& forall|i: int|
                from <= i < to && #[trigger] data[i] != 0 ==> data[i] < PROFILE_BLOCKS && !marked(
                    bitmap_of(w),
                    data[i] as int,
                )
        },
    decreases to - from,
{
    if from < to {
        if data[from] == 0 {
            lemma_release_frees(v, data, from + 1, to);
        } else {
            law_release_frees_the_block(v, data[from]);
            let s = release_block_step(v, data[from]);
            if s.result is Ok {
                let u = s.volume;
                lemma_release_frees(u, data, from + 1, to);
                let t = release_all(u, data, from + 1, to);
                if t.result is Ok {
                    let w = t.volume;
                    assert forall|c: int| 0 <= c < PROFILE_BLOCKS && #[trigger] marked(bitmap_of(w), c)
                        implies marked(bitmap_of(v), c) && c != data[from] by {
                        lemma_with_mark(bitmap_of(v), data[from] as int, false, c);
                    }
                }
            }
        }
    }
}

/// A released inode loses its mark and no other does; records and the content of files stay.
pub(crate) proof fn lemma_release_inode(v: Volume, number: u32)
    requires
        v.wf(),
    ensures
        release_inode_step(v, number).result is Ok ==> {
            let w = release_inode_step(v, number).volume;
            let m = v.geometry.inode_bitmap as int;
            &&& same_frame(v, w)
            &&& !marked(w.blocks[m], number - 1)
            &&& forall|node: NodeId|
                valid_node(node) && node.0 != number ==> #[trigger] node_kept(v, w, node)
            &&& bitmap_of(w) == bitmap_of(v)
            &&& forall|c: int|
                2 <= c < PROFILE_BLOCKS && c != m ==> #[trigger] w.blocks[c] == v.blocks[c]
        },
{
    reveal(release_inode_step);
    if release_inode_step(v, number).result is Ok {
        let m = v.geometry.inode_bitmap;
        let bitmap = v.blocks[m as int];
        let u = v.read_for_update(m).volume;
        lemma_mark(u, m, with_mark(bitmap, number - 1, false), inode_counter(), false);
        let w = release_inode_step(v, number).volume;
        assert(v.geometry.structural(m));
        lemma_with_mark(bitmap, number - 1, false, number - 1);
        assert forall|node: NodeId| valid_node(node) && node.0 != number implies #[trigger] node_kept(
            v,
            w,
            node,
        ) by {
            lemma_with_mark(bitmap, number - 1, false, node.0 - 1);
            let t = table_block(v.geometry, node);
            assert(v.geometry.structural(t) && t != m && t >= 2);
        }
    }
}

/// What discarding a node with a layout leaves: its mark and those of its blocks are gone. Other
/// nodes keep their records and marks, other blocks their marks, and all blocks of files their
/// content.
pub open spec fn freed(v: Volume, node: NodeId, layout: Layout, w: Volume) -> bool {
    &&& same_frame(v, w)
    &&& !marked(w.blocks[w.geometry.inode_bitmap as int], node.0 - 1)
    &&& forall|other: NodeId|
        valid_node(other) && other != node ==> #[trigger] node_kept(v, w, other)
    &&& forall|b: int|
        0 <= b < PROFILE_BLOCKS ==> #[trigger] marked(bitmap_of(w), b) == (marked(bitmap_of(v), b)
            && !owns(layout, b))
    &&& forall|b: u32| #[trigger] ownable(v, b) ==> w.blocks[b as int] == v.blocks[b as int]
}

/// Discarding a node frees it and its blocks.
#[verifier::rlimit(40)]
pub(crate) proof fn lemma_discard(v: Volume, node: NodeId, record: Seq<u8>)
    requires
        v.wf(),
        record.len() == INODE_BYTES,
        discard_step(v, node, record).result is Ok,
    ensures
        freed(v, node, layout_in(v, record), discard_step(v, node, record).volume),
{
    reveal(discard_step);
    let s1 = layout_step(v, record);
    let v1 = s1.volume;
    let layout = s1.result->Ok_0;
    assert(layout == layout_in(v, record));
    lemma_store(v1, node, cleared(record));
    let v2 = store_step(v1, node, cleared(record)).volume;
    let t = table_block(v.geometry, node);
    let m = v.geometry.inode_bitmap;
    assert(v.geometry.structural(m) && !accounting(v, m as int));
    assert(t != m);
    lemma_release_all(v2, layout.data, 0, TABLE_LEN as int);
    lemma_release_frees(v2, layout.data, 0, TABLE_LEN as int);
    let v3 = release_all(v2, layout.data, 0, TABLE_LEN as int).volume;
    let v4 = release_indirect_step(v3, layout.indirect).volume;
    if layout.indirect != 0 {
        law_release_frees_the_block(v3, layout.indirect);
    }
    lemma_release_inode(v4, node.0);
    let w = discard_step(v, node, record).volume;
    assert(w == release_inode_step(v4, node.0).volume);
    assert forall|b: int| 0 <= b < PROFILE_BLOCKS implies #[trigger] marked(bitmap_of(w), b) == (
    marked(bitmap_of(v), b) && !owns(layout, b)) by {
        assert(bitmap_of(v2) == bitmap_of(v));
        if layout.indirect != 0 {
            lemma_with_mark(bitmap_of(v3), layout.indirect as int, false, b);
        }
        assert(bitmap_of(w) == bitmap_of(v4));
        if exists|i: int| 0 <= i < layout.data.len() && b != 0 && #[trigger] layout.data[i] == b {
            let i = choose|i: int|
                0 <= i < layout.data.len() && b != 0 && #[trigger] layout.data[i] == b;
            assert(layout.data[i] != 0);
            assert(!marked(bitmap_of(v3), b));
        } else {
            assert(forall|i: int|
                0 <= i < TABLE_LEN && #[trigger] layout.data[i] != 0 ==> layout.data[i] != b);
            assert(marked(bitmap_of(v3), b) == marked(bitmap_of(v2), b));
        }
    }
    assert forall|c: int| 0 <= c < PROFILE_BLOCKS && !accounting(v, c) implies #[trigger] v4.blocks[c]
        == v2.blocks[c] by {
        assert(v3.blocks[c] == v2.blocks[c]);
    }
    assert forall|other: NodeId| valid_node(other) && other != node implies #[trigger] node_kept(
        v,
        w,
        other,
    ) by {
        let o = table_block(v.geometry, other);
        assert(v.geometry.structural(o) && !accounting(v, o as int));
        assert(v4.blocks[o as int] == v2.blocks[o as int]);
        assert(v4.blocks[m as int] == v2.blocks[m as int]);
        assert(file_record(v2, other) == file_record(v1, other));
        assert(node_kept(v4, w, other));
    }
    assert forall|b: u32| #[trigger] ownable(v, b) implies w.blocks[b as int] == v.blocks[b as int] by {
        assert(!accounting(v, b as int) && b != m && b >= 2 && b != t);
        assert(v4.blocks[b as int] == v2.blocks[b as int]);
    }
}

/// No named entry names a node that another entry names.
pub open spec fn no_links(entries: Seq<Entry>) -> bool {
    forall|i: int, j: int|
        0 <= i < entries.len() && 0 <= j < entries.len() && i != j && (
        #[trigger] entries[i]).name is Some ==> entries[i].node != (#[trigger] entries[j]).node
}

/// What removing a node leaves: its directory no longer has the entry that named it, and keeps
/// the others. The node and its blocks are free. Other nodes keep their records and marks, other
/// blocks their marks, and blocks that were in use outside the directory their content.
pub open spec fn lost(v: Volume, parent: NodeId, name: Seq<u8>, node: NodeId, w: Volume) -> bool {
    &&& same_frame(v, w)
    &&& healthy_dir(w, parent)
    &&& taken_out(entries(v, parent), name, node, entries(w, parent))
    &&& file_len(w, parent) == file_len(v, parent)
    &&& file_layout(w, parent) == file_layout(v, parent)
    &&& !marked(w.blocks[w.geometry.inode_bitmap as int], node.0 - 1)
    &&& forall|other: NodeId|
        valid_node(other) && other != node && other != parent ==> #[trigger] node_kept(v, w, other)
    &&& forall|b: int|
        0 <= b < PROFILE_BLOCKS ==> #[trigger] marked(bitmap_of(w), b) == (marked(bitmap_of(v), b)
            && !owns(file_layout(v, node), b))
    &&& forall|b: u32|
        #[trigger] ownable(v, b) && !owns(file_layout(v, parent), b as int) ==> w.blocks[b as int]
            == v.blocks[b as int]
}

/// An entry that was taken out named no node that another entry names.
pub(crate) proof fn lemma_no_links(
    before: Seq<Entry>,
    name: Seq<u8>,
    node: NodeId,
    after: Seq<Entry>,
)
    requires
        taken_out(before, name, node, after),
        no_links(before),
    ensures
        no_links(after),
        forall|i: int| 0 <= i < after.len() ==> (#[trigger] after[i]).node != node,
{
    let k = choose|k: int|
        0 <= k < before.len() && before[k].name == Some(name) && before[k].node == node && lacks(
            before.take(k),
            name,
        ) && after == #[trigger] before.remove(k);
    assert forall|i: int| 0 <= i < after.len() implies (#[trigger] after[i]).node != node by {
        let a = if i < k {
            i
        } else {
            i + 1
        };
        assert(after[i] == before[a]);
        assert(before[k].name is Some);
    }
    assert forall|i: int, j: int|
        0 <= i < after.len() && 0 <= j < after.len() && i != j && (
        #[trigger] after[i]).name is Some implies after[i].node != (#[trigger] after[j]).node by {
        let a = if i < k {
            i
        } else {
            i + 1
        };
        let b = if j < k {
            j
        } else {
            j + 1
        };
        assert(after[i] == before[a] && after[j] == before[b]);
    }
}

/// Taking an entry out and discarding what it named.
proof fn lemma_drop(v: Volume, parent: NodeId, name: Seq<u8>, child: NodeId)
    requires
        healthy_dir(v, parent),
        no_links(entries(v, parent)),
        valid_node(child),
        child != parent,
        apart(file_layout(v, child), file_layout(v, parent)),
    ensures
        ({
            let s = detach_step(v, parent, name, child);
            let t = discard_step(s.volume, child, file_record(v, child));
            s.result is Ok && t.result is Ok ==> lost(v, parent, name, child, t.volume)
        }),
{
    let s = detach_step(v, parent, name, child);
    let record = file_record(v, child);
    let t = discard_step(s.volume, child, record);
    if s.result is Ok && t.result is Ok {
        let u = s.volume;
        let w = t.volume;
        lemma_remove(v, parent, name);
        assert(left(v, parent, name, child, u));
        assert(table_block(v.geometry, child) < PROFILE_BLOCKS);
        assert(record.len() == INODE_BYTES);
        lemma_discard(u, child, record);
        let theirs = file_layout(v, child);
        assert(layout_in(u, record) == theirs) by {
            if theirs.indirect != 0 {
                assert(owns(theirs, theirs.indirect as int));
                reveal(discard_step);
                assert(layout_step(u, record).result is Ok);
                assert(theirs.indirect < PROFILE_BLOCKS);
                assert(u.blocks[theirs.indirect as int] == v.blocks[theirs.indirect as int]);
            }
        }
        lemma_no_links(entries(v, parent), name, child, entries(u, parent));
        let layout = file_layout(u, parent);
        assert(node_kept(u, w, parent));
        assert forall|i: int| 0 <= i < entries(u, parent).len() implies node_kept(
            u,
            w,
            (#[trigger] entries(u, parent)[i]).node,
        ) by {
            assert(in_use(u, entries(u, parent)[i].node, entries(u, parent)[i].kind));
        }
        assert forall|b: int| 0 <= b < PROFILE_BLOCKS && #[trigger] owns(layout, b) implies w.blocks[b]
            == u.blocks[b] && marked(bitmap_of(w), b) by {
            lemma_owned(u, layout, b);
            assert(ownable(u, b as u32));
        }
        lemma_directory_kept(u, w, parent);
        assert forall|other: NodeId|
            valid_node(other) && other != child && other != parent implies #[trigger] node_kept(
            v,
            w,
            other,
        ) by {
            assert(node_kept(v, u, other));
            assert(node_kept(u, w, other));
        }
        assert forall|b: u32|
            #[trigger] ownable(v, b) && !owns(file_layout(v, parent), b as int) implies w.blocks[
        b as int] == v.blocks[b as int] by {
            assert(ownable(u, b));
        }
    }
}

/// Removing a file takes its entry out of its directory, where it is not found from then on, and
/// frees its node and its blocks. Nothing else changes, where no other entry names the file and
/// it shares no block with its directory.
pub proof fn law_a_removed_file_is_gone(v: Volume, parent: NodeId, name: Seq<u8>)
    requires
        healthy_dir(v, parent),
        no_links(entries(v, parent)),
        find(entries(v, parent), name) matches Some(child) ==> apart(
            file_layout(v, child),
            file_layout(v, parent),
        ),
    ensures
        unlink_file_step(v, parent, name).result is Ok ==> {
            let w = unlink_file_step(v, parent, name).volume;
            &&& find(entries(v, parent), name) matches Some(child) && lost(
                v,
                parent,
                name,
                child,
                w,
            )
            &&& no_links(entries(w, parent))
            &&& misses(w, parent, name)
        },
{
    if unlink_file_step(v, parent, name).result is Ok {
        law_lookup_gives_the_entry(v, parent, name);
        lemma_find(entries(v, parent), name);
        let v1 = lookup_step(v, parent, name).volume;
        let child = find(entries(v, parent), name)->0;
        let v2 = load_step(v1, child).volume;
        lemma_reread(v, v2, parent);
        lemma_drop(v2, parent, name, child);
        let w = unlink_file_step(v, parent, name).volume;
        assert(lost(v2, parent, name, child, w));
        assert forall|other: NodeId|
            valid_node(other) && other != child && other != parent implies #[trigger] node_kept(
            v,
            w,
            other,
        ) by {
            assert(node_kept(v2, w, other));
        }
        assert forall|b: u32|
            #[trigger] ownable(v, b) && !owns(file_layout(v, parent), b as int) implies w.blocks[
        b as int] == v.blocks[b as int] by {
            assert(ownable(v2, b));
        }
        lemma_no_links(entries(v, parent), name, child, entries(w, parent));
        lemma_taken_out(v, entries(v, parent), name, child, entries(w, parent));
        law_lookup_gives_the_entry(w, parent, name);
    }
}

/// A directory where a name is found has a named entry.
pub(crate) proof fn lemma_named(entries: Seq<Entry>, name: Seq<u8>)
    requires
        find(entries, name) is Some,
    ensures
        named(entries).len() > 0,
    decreases entries.len(),
{
    if entries.len() > 0 && find(entries.drop_last(), name) is Some {
        lemma_named(entries.drop_last(), name);
    }
}

/// Removing a directory takes its entry out of its parent, where it is not found from then on,
/// and frees its node and its blocks. Nothing else changes but the number of links to the parent,
/// where no other entry names the directory and it shares no block with its parent.
pub proof fn law_a_removed_directory_is_gone(v: Volume, parent: NodeId, name: Seq<u8>)
    requires
        healthy_dir(v, parent),
        no_links(entries(v, parent)),
        find(entries(v, parent), name) matches Some(child) ==> apart(
            file_layout(v, child),
            file_layout(v, parent),
        ),
    ensures
        remove_dir_step(v, parent, name).result is Ok ==> {
            let w = remove_dir_step(v, parent, name).volume;
            &&& find(entries(v, parent), name) matches Some(child) && lost(
                v,
                parent,
                name,
                child,
                w,
            )
            &&& no_links(entries(w, parent))
            &&& misses(w, parent, name)
        },
{
    if remove_dir_step(v, parent, name).result is Ok {
        law_lookup_gives_the_entry(v, parent, name);
        lemma_find(entries(v, parent), name);
        let v1 = lookup_step(v, parent, name).volume;
        let child = find(entries(v, parent), name)->0;
        lemma_reread(v, v1, parent);
        reveal(require_empty_step);
        reveal(drop_directory_step);
        let v2 = require_empty_step(v1, child).volume;
        let record = require_empty_step(v1, child).result->Ok_0;
        law_reading_changes_nothing(load_step(v1, child).volume, child, name, 0, Seq::empty());
        assert(only_read(v, v2));
        assert(record == file_record(v, child));
        if child == parent {
            let u = load_step(v1, child).volume;
            lemma_reread(v, u, parent);
            law_lookup_gives_the_entry(u, parent, name);
            lemma_named(entries(v, parent), name);
        }
        lemma_reread(v, v2, parent);
        lemma_drop(v2, parent, name, child);
        let v3 = detach_step(v2, parent, name, child).volume;
        let v4 = discard_step(v3, child, record).volume;
        assert(lost(v2, parent, name, child, v4));
        lemma_used_dirs(v4, false);
        let v5 = used_dirs_step(v4, false).volume;
        assert forall|node: NodeId| valid_node(node) implies #[trigger] node_kept(v4, v5, node) by {
            let t = table_block(v.geometry, node);
            assert(v.geometry.structural(t) && t >= 2);
            assert(v.geometry.inode_bitmap >= 2);
        }
        assert(v.geometry.block_bitmap >= 2 && v.geometry.inode_bitmap >= 2);
        assert(bitmap_of(v5) == bitmap_of(v4));
        lemma_kept_by(v4, v5, parent, child);
        lemma_parent_links(v5, parent, false);
        let w = parent_links_step(v5, parent, false).volume;
        assert(w == remove_dir_step(v, parent, name).volume);
        assert forall|other: NodeId|
            valid_node(other) && other != child && other != parent implies #[trigger] node_kept(
            v,
            w,
            other,
        ) by {
            assert(node_kept(v2, v4, other));
            assert(node_kept(v4, v5, other));
            assert(node_kept(v5, w, other));
        }
        assert(node_kept(v4, v5, child));
        assert(node_kept(v5, w, child));
        assert forall|b: u32|
            #[trigger] ownable(v, b) && !owns(file_layout(v, parent), b as int) implies w.blocks[
        b as int] == v.blocks[b as int] by {
            assert(ownable(v2, b));
            assert(b >= 2);
            let t = table_block(v.geometry, parent);
            assert(v.geometry.structural(t));
            assert(w.blocks[b as int] == v5.blocks[b as int]);
            assert(v5.blocks[b as int] == v4.blocks[b as int]);
        }
        lemma_no_links(entries(v, parent), name, child, entries(w, parent));
        lemma_taken_out(v, entries(v, parent), name, child, entries(w, parent));
        law_lookup_gives_the_entry(w, parent, name);
    }
}

/// A directory that has a named entry is not removed.
pub proof fn law_only_an_empty_directory_is_removed(
    v: Volume,
    parent: NodeId,
    name: Seq<u8>,
    child: NodeId,
)
    requires
        healthy_dir(v, parent),
        find(entries(v, parent), name) == Some(child),
        healthy_dir(v, child),
        named(entries(v, child)).len() > 0,
        child.0 != 2,
    ensures
        remove_dir_step(v, parent, name).result matches Err(e) && (e == Ext2Error::DirectoryNotEmpty
            || e is Block || v.writable() == Err::<(), Ext2Error>(e)),
        remove_dir_step(v, parent, name).volume.blocks == v.blocks,
{
    if v.writable() is Ok {
        law_lookup_gives_the_entry(v, parent, name);
        let v1 = lookup_step(v, parent, name).volume;
        lemma_reread(v, v1, child);
        reveal(require_empty_step);
        let u = load_step(v1, child).volume;
        lemma_reread(v1, u, child);
        law_lookup_gives_the_entry(u, child, name);
    }
}

/// Removing a file or a directory spares the files that it shares no block with: they hold what
/// they held.
pub proof fn law_removing_spares_other_files(
    v: Volume,
    parent: NodeId,
    name: Seq<u8>,
    child: NodeId,
    other: NodeId,
)
    requires
        healthy_dir(v, parent),
        no_links(entries(v, parent)),
        find(entries(v, parent), name) == Some(child),
        apart(file_layout(v, child), file_layout(v, parent)),
        healthy_file(v, other),
        other != child,
        apart(file_layout(v, other), file_layout(v, parent)),
        apart(file_layout(v, other), file_layout(v, child)),
    ensures
        unlink_file_step(v, parent, name).result is Ok ==> {
            let w = unlink_file_step(v, parent, name).volume;
            healthy_file(w, other) && contents(w, other) == contents(v, other)
        },
        remove_dir_step(v, parent, name).result is Ok ==> {
            let w = remove_dir_step(v, parent, name).volume;
            healthy_file(w, other) && contents(w, other) == contents(v, other)
        },
{
    law_a_removed_file_is_gone(v, parent, name);
    law_a_removed_directory_is_gone(v, parent, name);
    let layout = file_layout(v, other);
    if unlink_file_step(v, parent, name).result is Ok {
        let w = unlink_file_step(v, parent, name).volume;
        assert(node_kept(v, w, other));
        assert forall|b: int| 0 <= b < PROFILE_BLOCKS && #[trigger] owns(layout, b) implies w.blocks[b]
            == v.blocks[b] && marked(bitmap_of(w), b) by {
            lemma_apart_kept(v, w, layout, parent, b);
        }
        lemma_file_kept(v, w, other);
    }
    if remove_dir_step(v, parent, name).result is Ok {
        let w = remove_dir_step(v, parent, name).volume;
        assert(node_kept(v, w, other));
        assert forall|b: int| 0 <= b < PROFILE_BLOCKS && #[trigger] owns(layout, b) implies w.blocks[b]
            == v.blocks[b] && marked(bitmap_of(w), b) by {
            lemma_apart_kept(v, w, layout, parent, b);
        }
        lemma_file_kept(v, w, other);
    }
}

} // verus!
