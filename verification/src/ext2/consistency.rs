//! A consistent file system, and that changes keep it so.
use vstd::prelude::*;

use crate::fs::{name_check, NodeId, NodeKind};

use super::allocator::marked;
use super::contents::{
    accounting, bitmap_of, file_layout, file_len, file_record, healthy_file,
    law_truncate_sets_the_length, lemma_same_blocks, lemma_write_at, ownable, owns, same_frame,
    sound, written_file,
};
use super::creation::{gained, law_a_new_directory_is_found, law_a_new_file_is_found, own_entries};
use super::cut_truncation::lemma_truncate_resized;
use super::directory::{dot_name, find, lookup_step, named, Entry};
use super::entries::{lacks, taken_out};
use super::inode::{load_step, table_block, valid_node};
use super::mutation::{
    create_dir_step, create_file_step, remove_dir_step, require_empty_step, truncate_step,
    unlink_file_step, write_at_step,
};
use super::on_disk::BLOCK_BYTES;
use super::removal::{
    law_a_removed_directory_is_gone, law_a_removed_file_is_gone,
    law_only_an_empty_directory_is_removed, lemma_named, lost, no_links,
};
use super::tree::{
    all_in_use, apart, entries, healthy_dir, in_use, law_lookup_gives_the_entry,
    lemma_directory_alike, lemma_file_kept, lemma_find, lemma_owned, lemma_reread, mark_kept,
    node_kept,
};
use super::volume::Volume;
use super::PROFILE_BLOCKS;

verus! {

/// An entry of a directory in use gives a node a name.
pub open spec fn names_node(v: Volume, dir: NodeId, i: int, node: NodeId) -> bool {
    &&& in_use(v, dir, NodeKind::Directory)
    &&& 0 <= i < entries(v, dir).len()
    &&& entries(v, dir)[i].name is Some
    &&& entries(v, dir)[i].node == node
}

/// An entry without a name stands for the directory itself, or for the one that names it.
pub open spec fn dot_entry(v: Volume, dir: NodeId, i: int) -> bool {
    let node = entries(v, dir)[i].node;
    &&& in_use(v, node, NodeKind::Directory)
    &&& node == dir || exists|j: int| #[trigger] names_node(v, node, j, dir)
}

/// A consistent file system: all files and directories in use are healthy and share no block, no
/// node has two names, and entries without a name are where they belong.
pub open spec fn consistent(v: Volume) -> bool {
    &&& v.wf()
    &&& forall|n: NodeId| #[trigger] in_use(v, n, NodeKind::Regular) ==> healthy_file(v, n)
    &&& forall|n: NodeId| #[trigger]
        in_use(v, n, NodeKind::Directory) ==> healthy_dir(v, n) && file_len(v, n) % (
        BLOCK_BYTES as int) == 0 && no_links(entries(v, n))
    &&& forall|a: NodeId, j: NodeKind, b: NodeId, k: NodeKind| #[trigger]
        in_use(v, a, j) && #[trigger] in_use(v, b, k) && a != b ==> apart(
            file_layout(v, a),
            file_layout(v, b),
        )
    &&& forall|d: NodeId, i: int, e: NodeId, j: int, n: NodeId| #[trigger]
        names_node(v, d, i, n) && #[trigger] names_node(v, e, j, n) ==> d == e && i == j
    &&& forall|d: NodeId, i: int|
        in_use(v, d, NodeKind::Directory) && 0 <= i < entries(v, d).len() && (
        #[trigger] entries(v, d)[i]).name is None ==> dot_entry(v, d, i)
}

/// What a change of one file leaves of the rest.
spec fn one_file_changed(v: Volume, node: NodeId, w: Volume) -> bool {
    &&& same_frame(v, w)
    &&& healthy_file(w, node)
    &&& forall|other: NodeId|
        valid_node(other) && other != node ==> #[trigger] node_kept(v, w, other)
    &&& mark_kept(v, w, node)
    &&& forall|b: u32|
        #[trigger] ownable(v, b) && !owns(file_layout(v, node), b as int) ==> w.blocks[b as int]
            == v.blocks[b as int] && marked(bitmap_of(w), b as int)
    &&& forall|c: int|
        #[trigger] owns(file_layout(w, node), c) && !owns(file_layout(v, node), c) ==> !marked(
            bitmap_of(v),
            c,
        )
}

/// The directories are the same where the nodes in use are.
proof fn lemma_same_names(v: Volume, w: Volume)
    requires
        consistent(v),
        forall|n: NodeId, k: NodeKind| #[trigger] in_use(w, n, k) == in_use(v, n, k),
        forall|n: NodeId|
            #[trigger] in_use(v, n, NodeKind::Directory) ==> entries(w, n) == entries(v, n),
    ensures
        forall|d: NodeId, i: int, e: NodeId, j: int, n: NodeId| #[trigger]
            names_node(w, d, i, n) && #[trigger] names_node(w, e, j, n) ==> d == e && i == j,
        forall|d: NodeId, i: int|
            in_use(w, d, NodeKind::Directory) && 0 <= i < entries(w, d).len() && (
            #[trigger] entries(w, d)[i]).name is None ==> dot_entry(w, d, i),
{
    assert forall|d: NodeId, i: int, n: NodeId| #[trigger] names_node(w, d, i, n) implies names_node(
        v,
        d,
        i,
        n,
    ) by {
        assert(in_use(v, d, NodeKind::Directory));
    }
    assert forall|d: NodeId, i: int|
        in_use(w, d, NodeKind::Directory) && 0 <= i < entries(w, d).len() && (#[trigger] entries(
            w,
            d,
        )[i]).name is None implies dot_entry(w, d, i) by {
        assert(in_use(v, d, NodeKind::Directory));
        assert(entries(v, d)[i].name is None);
        assert(dot_entry(v, d, i));
        let node = entries(v, d)[i].node;
        assert(in_use(w, node, NodeKind::Directory));
        if node != d {
            let j = choose|j: int| #[trigger] names_node(v, node, j, d);
            assert(in_use(v, node, NodeKind::Directory));
            assert(names_node(w, node, j, d));
        }
    }
}

/// A change of one file keeps the file system consistent.
#[verifier::rlimit(40)]
proof fn lemma_one_file_changed(v: Volume, node: NodeId, w: Volume)
    requires
        consistent(v),
        in_use(v, node, NodeKind::Regular),
        one_file_changed(v, node, w),
    ensures
        consistent(w),
{
    assert forall|n: NodeId, k: NodeKind| #[trigger] in_use(w, n, k) == in_use(v, n, k) by {
        if valid_node(n) && n != node {
            assert(node_kept(v, w, n));
        }
    }
    assert forall|n: NodeId, k: NodeKind|
        #[trigger] in_use(v, n, k) && n != node implies file_layout(w, n) == file_layout(v, n) && (k
        == NodeKind::Regular ==> healthy_file(w, n)) && (k == NodeKind::Directory ==> healthy_dir(
        w,
        n,
    ) && entries(w, n) == entries(v, n) && file_len(w, n) == file_len(v, n)) by {
        lemma_bystander(v, w, n, k, node);
    }
    lemma_same_names(v, w);
    assert forall|n: NodeId| #[trigger] in_use(w, n, NodeKind::Directory) implies healthy_dir(w, n)
        && file_len(w, n) % (BLOCK_BYTES as int) == 0 && no_links(entries(w, n)) by {
        assert(in_use(v, n, NodeKind::Directory));
    }
    assert forall|n: NodeId| #[trigger] in_use(w, n, NodeKind::Regular) implies healthy_file(
        w,
        n,
    ) by {
        assert(in_use(v, n, NodeKind::Regular));
    }
    assert forall|a: NodeId, j: NodeKind, b: NodeId, k: NodeKind| #[trigger]
        in_use(w, a, j) && #[trigger] in_use(w, b, k) && a != b implies apart(
        file_layout(w, a),
        file_layout(w, b),
    ) by {
        assert(in_use(v, a, j) && in_use(v, b, k));
        assert(apart(file_layout(v, a), file_layout(v, b)));
        if a == node {
            lemma_apart_changed(v, w, node, b, k);
        } else if b == node {
            lemma_apart_changed(v, w, node, a, j);
            assert forall|c: int| #[trigger] owns(file_layout(w, a), c) implies !owns(
                file_layout(w, b),
                c,
            ) by {
                if owns(file_layout(w, b), c) {
                    assert(!owns(file_layout(w, a), c));
                }
            }
        }
    }
}

/// The layout of a file or directory in use is sound.
proof fn lemma_sound_in_use(v: Volume, n: NodeId, k: NodeKind)
    requires
        consistent(v),
        in_use(v, n, k),
    ensures
        sound(v, file_layout(v, n)),
{
    match k {
        NodeKind::Regular => {
            assert(in_use(v, n, NodeKind::Regular));
        },
        NodeKind::Directory => {
            assert(in_use(v, n, NodeKind::Directory));
        },
    }
}

proof fn lemma_apart_changed(v: Volume, w: Volume, node: NodeId, other: NodeId, kind: NodeKind)
    requires
        consistent(v),
        in_use(v, node, NodeKind::Regular),
        in_use(v, other, kind),
        other != node,
        one_file_changed(v, node, w),
        file_layout(w, other) == file_layout(v, other),
    ensures
        apart(file_layout(w, node), file_layout(w, other)),
{
    assert(apart(file_layout(v, node), file_layout(v, other)));
    lemma_sound_in_use(v, other, kind);
    assert forall|c: int| #[trigger] owns(file_layout(w, node), c) implies !owns(
        file_layout(w, other),
        c,
    ) by {
        if owns(file_layout(v, other), c) {
            lemma_owned(v, file_layout(v, other), c);
            assert(marked(bitmap_of(v), c));
            assert(owns(file_layout(v, node), c));
        }
    }
}

/// A node is kept where its record and its blocks are, and what it names stays in use.
proof fn lemma_bystander(v: Volume, w: Volume, n: NodeId, k: NodeKind, node: NodeId)
    requires
        consistent(v),
        in_use(v, node, NodeKind::Regular),
        in_use(v, n, k),
        n != node,
        one_file_changed(v, node, w),
        forall|n: NodeId, k: NodeKind| #[trigger] in_use(w, n, k) == in_use(v, n, k),
    ensures
        file_layout(w, n) == file_layout(v, n),
        k == NodeKind::Regular ==> healthy_file(w, n),
        k == NodeKind::Directory ==> healthy_dir(w, n) && entries(w, n) == entries(v, n) && file_len(
            w,
            n,
        ) == file_len(v, n),
{
    let layout = file_layout(v, n);
    lemma_sound_in_use(v, n, k);
    assert(apart(layout, file_layout(v, node)));
    assert(node_kept(v, w, n));
    assert forall|b: int| 0 <= b < PROFILE_BLOCKS && #[trigger] owns(layout, b) implies w.blocks[b]
        == v.blocks[b] && marked(bitmap_of(w), b) by {
        lemma_owned(v, layout, b);
        assert(ownable(v, b as u32));
        assert(!owns(file_layout(v, node), b));
    }
    lemma_kept_node(v, w, n, k);
}

/// A node is kept where its record and its blocks are, and what it names stays in use.
proof fn lemma_kept_node(v: Volume, w: Volume, n: NodeId, k: NodeKind)
    requires
        consistent(v),
        in_use(v, n, k),
        same_frame(v, w),
        node_kept(v, w, n),
        forall|b: int|
            0 <= b < PROFILE_BLOCKS && #[trigger] owns(file_layout(v, n), b) ==> w.blocks[b]
                == v.blocks[b] && marked(bitmap_of(w), b),
        k == NodeKind::Directory ==> all_in_use(w, entries(v, n)),
    ensures
        file_layout(w, n) == file_layout(v, n),
        k == NodeKind::Regular ==> healthy_file(w, n),
        k == NodeKind::Directory ==> healthy_dir(w, n) && entries(w, n) == entries(v, n) && file_len(
            w,
            n,
        ) == file_len(v, n),
{
    let layout = file_layout(v, n);
    lemma_sound_in_use(v, n, k);
    if layout.indirect != 0 {
        assert(ownable(v, layout.indirect));
        assert(owns(layout, layout.indirect as int));
    }
    assert(file_layout(w, n) == layout);
    match k {
        NodeKind::Regular => {
            assert(in_use(v, n, NodeKind::Regular));
            lemma_file_kept(v, w, n);
        },
        NodeKind::Directory => {
            assert(in_use(v, n, NodeKind::Directory));
            lemma_directory_alike(v, w, n);
        },
    }
}

/// Writing to a file and changing its length keep the file system consistent.
pub proof fn law_writing_keeps_the_file_system_consistent(
    v: Volume,
    node: NodeId,
    offset: u64,
    src: Seq<u8>,
    len: u64,
)
    requires
        consistent(v),
        in_use(v, node, NodeKind::Regular),
    ensures
        write_at_step(v, node, offset, src).result is Ok ==> consistent(
            write_at_step(v, node, offset, src).volume,
        ),
        truncate_step(v, node, len).result is Ok ==> consistent(truncate_step(v, node, len).volume),
{
    assert(healthy_file(v, node));
    if write_at_step(v, node, offset, src).result is Ok {
        lemma_write_changes_one(v, node, offset, src);
        lemma_one_file_changed(v, node, write_at_step(v, node, offset, src).volume);
    }
    if truncate_step(v, node, len).result is Ok {
        lemma_truncate_changes_one(v, node, len);
        lemma_one_file_changed(v, node, truncate_step(v, node, len).volume);
    }
}

proof fn lemma_write_changes_one(v: Volume, node: NodeId, offset: u64, src: Seq<u8>)
    requires
        healthy_file(v, node),
        in_use(v, node, NodeKind::Regular),
        write_at_step(v, node, offset, src).result is Ok,
    ensures
        one_file_changed(v, node, write_at_step(v, node, offset, src).volume),
{
    let w = write_at_step(v, node, offset, src).volume;
    let u = v.ticked();
    lemma_write_at(v, node, offset, src);
    lemma_same_blocks(v, u, node);
    let m = v.geometry.inode_bitmap;
    assert(v.geometry.structural(m) && !accounting(v, m as int));
    if src.len() > 0 {
        let before = file_layout(v, node);
        let after = file_layout(w, node);
        assert(written_file(u, node, offset as int, src, w));
        assert(!owns(after, m as int)) by {
            if owns(after, m as int) {
                lemma_owned(w, after, m as int);
            }
        }
        assert(m != table_block(v.geometry, node));
        assert(w.blocks[m as int] == v.blocks[m as int]);
        assert forall|other: NodeId| valid_node(other) && other != node implies #[trigger] node_kept(
            v,
            w,
            other,
        ) by {
            assert(file_record(w, other) == file_record(u, other));
        }
        assert forall|b: u32| #[trigger] ownable(v, b) && !owns(before, b as int) implies w.blocks[
        b as int] == v.blocks[b as int] && marked(bitmap_of(w), b as int) by {
            if owns(after, b as int) {
                assert(!marked(bitmap_of(u), b as int));
            }
            assert(v.geometry.structural(table_block(v.geometry, node)));
            assert(marked(bitmap_of(u), b as int));
            assert(w.blocks[b as int] == u.blocks[b as int]);
        }
    } else {
        assert(w == u);
        assert forall|other: NodeId| valid_node(other) && other != node implies #[trigger] node_kept(
            v,
            w,
            other,
        ) by {}
    }
}

proof fn lemma_truncate_changes_one(v: Volume, node: NodeId, len: u64)
    requires
        healthy_file(v, node),
        in_use(v, node, NodeKind::Regular),
        truncate_step(v, node, len).result is Ok,
    ensures
        one_file_changed(v, node, truncate_step(v, node, len).volume),
{
    lemma_truncate_resized(v, node, len);
    law_truncate_sets_the_length(v, node, len);
}

/// The kind of a node in use is the one that its record tells.
proof fn lemma_one_kind(v: Volume, n: NodeId, j: NodeKind, k: NodeKind)
    requires
        in_use(v, n, j),
        in_use(v, n, k),
    ensures
        j == k,
{
}

/// A new node is healthy and takes only what was free.
spec fn welcome(v: Volume, parent: NodeId, entry: Entry, w: Volume) -> bool {
    &&& gained(v, parent, entry, w)
    &&& entry.name is Some
    &&& entry.kind == NodeKind::Regular ==> healthy_file(w, entry.node)
    &&& entry.kind == NodeKind::Directory ==> healthy_dir(w, entry.node) && file_len(w, entry.node)
        % (BLOCK_BYTES as int) == 0 && entries(w, entry.node) == own_entries(entry.node, parent)
    &&& forall|c: int|
        #[trigger] owns(file_layout(w, entry.node), c) ==> !marked(bitmap_of(v), c) && !owns(
            file_layout(w, parent),
            c,
        )
}

/// What was in use stays in use when a node is created, and is kept but for the parent.
proof fn lemma_gained_kept(v: Volume, parent: NodeId, entry: Entry, w: Volume)
    requires
        consistent(v),
        in_use(v, parent, NodeKind::Directory),
        welcome(v, parent, entry, w),
    ensures
        forall|n: NodeId, k: NodeKind| #[trigger] in_use(v, n, k) ==> in_use(w, n, k),
        forall|n: NodeId, k: NodeKind| #[trigger]
            in_use(w, n, k) ==> in_use(v, n, k) || n == entry.node && k == entry.kind,
        forall|n: NodeId, k: NodeKind| #[trigger]
            in_use(v, n, k) && n != parent ==> file_layout(w, n) == file_layout(v, n) && (k
                == NodeKind::Regular ==> healthy_file(w, n)) && (k == NodeKind::Directory
                ==> healthy_dir(w, n) && entries(w, n) == entries(v, n) && file_len(w, n)
                == file_len(v, n)),
        !in_use(v, entry.node, NodeKind::Regular),
        !in_use(v, entry.node, NodeKind::Directory),
        entry.node != parent,
{
    assert forall|n: NodeId, k: NodeKind| #[trigger] in_use(v, n, k) implies in_use(w, n, k) by {
        if n == parent {
            lemma_one_kind(v, n, k, NodeKind::Directory);
        } else {
            assert(node_kept(v, w, n));
        }
    }
    assert forall|n: NodeId, k: NodeKind| #[trigger] in_use(w, n, k) implies in_use(v, n, k) || n
        == entry.node && k == entry.kind by {
        if n == parent {
            lemma_one_kind(w, n, k, NodeKind::Directory);
        } else if n == entry.node {
            lemma_one_kind(w, n, k, entry.kind);
        } else {
            assert(node_kept(v, w, n));
        }
    }
    assert forall|n: NodeId, k: NodeKind| #[trigger]
        in_use(v, n, k) && n != parent implies file_layout(w, n) == file_layout(v, n) && (k
        == NodeKind::Regular ==> healthy_file(w, n)) && (k == NodeKind::Directory ==> healthy_dir(
        w,
        n,
    ) && entries(w, n) == entries(v, n) && file_len(w, n) == file_len(v, n)) by {
        let layout = file_layout(v, n);
        lemma_sound_in_use(v, n, k);
        assert(apart(layout, file_layout(v, parent)));
        assert(node_kept(v, w, n));
        assert forall|b: int| 0 <= b < PROFILE_BLOCKS && #[trigger] owns(layout, b) implies w.blocks[
        b] == v.blocks[b] && marked(bitmap_of(w), b) by {
            lemma_owned(v, layout, b);
            assert(ownable(v, b as u32));
            assert(!owns(file_layout(v, parent), b));
        }
        if k == NodeKind::Directory {
            assert(in_use(v, n, NodeKind::Directory));
            assert forall|i: int| 0 <= i < entries(v, n).len() implies in_use(
                w,
                (#[trigger] entries(v, n)[i]).node,
                entries(v, n)[i].kind,
            ) by {
                assert(in_use(v, entries(v, n)[i].node, entries(v, n)[i].kind));
            }
        }
        lemma_kept_node(v, w, n, k);
    }
}

/// Where an entry stands after one more was inserted at `k`.
spec fn after_insert(k: int, i: int) -> int {
    if i < k {
        i
    } else {
        i + 1
    }
}

/// What named a node before still does when a node is created.
proof fn lemma_still_named(
    v: Volume,
    parent: NodeId,
    entry: Entry,
    w: Volume,
    k: int,
    d: NodeId,
    i: int,
    n: NodeId,
)
    requires
        consistent(v),
        in_use(v, parent, NodeKind::Directory),
        welcome(v, parent, entry, w),
        0 <= k <= entries(v, parent).len(),
        entries(w, parent) == entries(v, parent).insert(k, entry),
        names_node(v, d, i, n),
    ensures
        names_node(
            w,
            d,
            if d == parent {
                after_insert(k, i)
            } else {
                i
            },
            n,
        ),
        n != entry.node,
{
    lemma_gained_kept(v, parent, entry, w);
    assert(in_use(v, d, NodeKind::Directory));
    let found = entries(v, d)[i];
    assert(in_use(v, found.node, found.kind));
    if d == parent {
        let before = entries(v, parent);
        assert(before.insert(k, entry)[after_insert(k, i)] == before[i]);
    }
    if n == entry.node {
        match found.kind {
            NodeKind::Regular => {},
            NodeKind::Directory => {},
        }
    }
}

/// What names a node when a node was created did so before, or is the new entry.
proof fn lemma_was_named(
    v: Volume,
    parent: NodeId,
    entry: Entry,
    w: Volume,
    k: int,
    d: NodeId,
    i: int,
    n: NodeId,
)
    requires
        consistent(v),
        in_use(v, parent, NodeKind::Directory),
        welcome(v, parent, entry, w),
        0 <= k <= entries(v, parent).len(),
        entries(w, parent) == entries(v, parent).insert(k, entry),
        names_node(w, d, i, n),
    ensures
        d == parent && i == k ==> n == entry.node,
        d == parent && i < k ==> names_node(v, d, i, n),
        d == parent && i > k ==> names_node(v, d, i - 1, n),
        d != parent ==> names_node(v, d, i, n),
{
    lemma_gained_kept(v, parent, entry, w);
    assert(in_use(w, d, NodeKind::Directory));
    if d == parent {
        let before = entries(v, parent);
        let after = before.insert(k, entry);
        if i < k {
            assert(after[i] == before[i]);
        } else if i > k {
            assert(after[i] == before[i - 1]);
        }
    } else if d == entry.node {
        assert(entries(w, d) == own_entries(entry.node, parent));
    } else {
        assert(in_use(v, d, NodeKind::Directory));
    }
}

/// Creating a node keeps the file system consistent.
#[verifier::rlimit(60)]
proof fn lemma_welcome(v: Volume, parent: NodeId, entry: Entry, w: Volume)
    requires
        consistent(v),
        in_use(v, parent, NodeKind::Directory),
        welcome(v, parent, entry, w),
    ensures
        consistent(w),
{
    lemma_gained_kept(v, parent, entry, w);
    let before = entries(v, parent);
    let after = entries(w, parent);
    let k = choose|k: int| 0 <= k <= before.len() && after == #[trigger] before.insert(k, entry);
    assert(healthy_dir(v, parent));
    assert(no_links(after)) by {
        assert forall|i: int, j: int|
            0 <= i < after.len() && 0 <= j < after.len() && i != j && (
            #[trigger] after[i]).name is Some implies after[i].node != (#[trigger] after[j]).node by {
            let a = if i < k {
                i
            } else {
                i - 1
            };
            let b = if j < k {
                j
            } else {
                j - 1
            };
            if i != k {
                assert(after[i] == before[a]);
                assert(in_use(v, before[a].node, before[a].kind));
            }
            if j != k {
                assert(after[j] == before[b]);
                assert(in_use(v, before[b].node, before[b].kind));
            }
        }
    }
    assert forall|n: NodeId| #[trigger] in_use(w, n, NodeKind::Regular) implies healthy_file(
        w,
        n,
    ) by {
        if in_use(v, n, NodeKind::Regular) {
            if n == parent {
                lemma_one_kind(v, n, NodeKind::Regular, NodeKind::Directory);
            }
        }
    }
    assert forall|n: NodeId| #[trigger] in_use(w, n, NodeKind::Directory) implies healthy_dir(w, n)
        && file_len(w, n) % (BLOCK_BYTES as int) == 0 && no_links(entries(w, n)) by {
        if n != parent && in_use(v, n, NodeKind::Directory) {
            assert(entries(w, n) == entries(v, n));
        }
    }
    assert forall|a: NodeId, j: NodeKind, b: NodeId, l: NodeKind| #[trigger]
        in_use(w, a, j) && #[trigger] in_use(w, b, l) && a != b implies apart(
        file_layout(w, a),
        file_layout(w, b),
    ) by {
        assert forall|c: int| #[trigger] owns(file_layout(w, a), c) implies !owns(
            file_layout(w, b),
            c,
        ) by {
            lemma_never_shared(v, parent, entry, w, a, j, b, l, c);
        }
    }
    assert forall|d: NodeId, i: int, e: NodeId, j: int, n: NodeId| #[trigger]
        names_node(w, d, i, n) && #[trigger] names_node(w, e, j, n) implies d == e && i == j by {
        lemma_was_named(v, parent, entry, w, k, d, i, n);
        lemma_was_named(v, parent, entry, w, k, e, j, n);
        let a = if d == parent && i >= k {
            i - 1
        } else {
            i
        };
        let b = if e == parent && j >= k {
            j - 1
        } else {
            j
        };
        let new_a = d == parent && i == k;
        let new_b = e == parent && j == k;
        if !new_a {
            assert(names_node(v, d, a, n));
            lemma_still_named(v, parent, entry, w, k, d, a, n);
        }
        if !new_b {
            assert(names_node(v, e, b, n));
            lemma_still_named(v, parent, entry, w, k, e, b, n);
        }
    }
    assert forall|d: NodeId, i: int|
        in_use(w, d, NodeKind::Directory) && 0 <= i < entries(w, d).len() && (#[trigger] entries(
            w,
            d,
        )[i]).name is None implies dot_entry(w, d, i) by {
        if d == entry.node {
            assert(entries(w, d) == own_entries(entry.node, parent));
            assert(names_node(w, parent, k, entry.node));
            assert(in_use(w, parent, NodeKind::Directory));
        } else {
            assert(in_use(v, d, NodeKind::Directory));
            let a = if d == parent && i >= k {
                i - 1
            } else {
                i
            };
            assert(entries(v, d)[a] == entries(w, d)[i]);
            assert(dot_entry(v, d, a));
            let node = entries(v, d)[a].node;
            assert(in_use(v, node, NodeKind::Directory));
            assert(in_use(w, node, NodeKind::Directory));
            if node != d {
                let j = choose|j: int| #[trigger] names_node(v, node, j, d);
                lemma_still_named(v, parent, entry, w, k, node, j, d);
            }
        }
    }
}

/// No block is shared after a node was created.
proof fn lemma_never_shared(
    v: Volume,
    parent: NodeId,
    entry: Entry,
    w: Volume,
    a: NodeId,
    j: NodeKind,
    b: NodeId,
    l: NodeKind,
    c: int,
)
    requires
        consistent(v),
        in_use(v, parent, NodeKind::Directory),
        welcome(v, parent, entry, w),
        in_use(w, a, j),
        in_use(w, b, l),
        a != b,
        owns(file_layout(w, a), c),
    ensures
        !owns(file_layout(w, b), c),
{
    lemma_gained_kept(v, parent, entry, w);
    if !owns(file_layout(w, b), c) {
    } else if a == entry.node {
        if b != parent {
            assert(in_use(v, b, l));
            lemma_sound_in_use(v, b, l);
            lemma_owned(v, file_layout(v, b), c);
        }
    } else if b == entry.node {
        if a != parent {
            assert(in_use(v, a, j));
            lemma_sound_in_use(v, a, j);
            lemma_owned(v, file_layout(v, a), c);
        }
    } else {
        assert(in_use(v, a, j) && in_use(v, b, l));
        assert(apart(file_layout(v, a), file_layout(v, b)));
        if a == parent {
            lemma_sound_in_use(v, b, l);
            lemma_owned(v, file_layout(v, b), c);
            assert(ownable(v, c as u32));
            assert(apart(file_layout(v, b), file_layout(v, a)));
            assert(!owns(file_layout(v, a), c));
        } else if b == parent {
            lemma_sound_in_use(v, a, j);
            lemma_owned(v, file_layout(v, a), c);
            assert(ownable(v, c as u32));
            assert(!owns(file_layout(v, b), c));
        }
    }
}

/// Creating files and directories keeps the file system consistent.
pub proof fn law_creating_keeps_the_file_system_consistent(
    v: Volume,
    parent: NodeId,
    name: Seq<u8>,
)
    requires
        consistent(v),
        in_use(v, parent, NodeKind::Directory),
        name_check(name) is Ok,
        !dot_name(name),
    ensures
        create_file_step(v, parent, name).result is Ok ==> consistent(
            create_file_step(v, parent, name).volume,
        ),
        create_dir_step(v, parent, name).result is Ok ==> consistent(
            create_dir_step(v, parent, name).volume,
        ),
{
    assert(healthy_dir(v, parent));
    law_a_new_file_is_found(v, parent, name);
    law_a_new_directory_is_found(v, parent, name);
    if let Ok(node) = create_file_step(v, parent, name).result {
        let w = create_file_step(v, parent, name).volume;
        let entry = Entry { node, name: Some(name), kind: NodeKind::Regular };
        assert forall|c: int| #[trigger] owns(file_layout(w, node), c) implies !marked(
            bitmap_of(v),
            c,
        ) && !owns(file_layout(w, parent), c) by {}
        lemma_welcome(v, parent, entry, w);
    }
    if let Ok(node) = create_dir_step(v, parent, name).result {
        let w = create_dir_step(v, parent, name).volume;
        let entry = Entry { node, name: Some(name), kind: NodeKind::Directory };
        lemma_welcome(v, parent, entry, w);
    }
}

/// A node can be removed: it is a file, or a directory without named entries.
spec fn leavable(v: Volume, child: NodeId, kind: NodeKind) -> bool {
    &&& in_use(v, child, kind)
    &&& kind == NodeKind::Directory ==> forall|i: int|
        0 <= i < entries(v, child).len() ==> (#[trigger] entries(v, child)[i]).name is None
}

/// What is removed: the entry at `k` of the parent names it.
spec fn leaves(v: Volume, parent: NodeId, k: int, child: NodeId, kind: NodeKind, w: Volume) -> bool {
    &&& consistent(v)
    &&& child != parent
    &&& leavable(v, child, kind)
    &&& names_node(v, parent, k, child)
    &&& lost(v, parent, entries(v, parent)[k].name->0, child, w)
    &&& entries(w, parent) == entries(v, parent).remove(k)
}

/// No other entry stands for a node that can be removed.
proof fn lemma_only_name(
    v: Volume,
    parent: NodeId,
    k: int,
    child: NodeId,
    kind: NodeKind,
    w: Volume,
    d: NodeId,
    i: int,
)
    requires
        leaves(v, parent, k, child, kind, w),
        in_use(v, d, NodeKind::Directory),
        d != child,
        0 <= i < entries(v, d).len(),
        entries(v, d)[i].node == child,
    ensures
        d == parent && i == k,
{
    if entries(v, d)[i].name is Some {
        assert(names_node(v, d, i, child));
        assert(names_node(v, parent, k, child));
    } else {
        assert(dot_entry(v, d, i));
        lemma_one_kind(v, child, kind, NodeKind::Directory);
        let j = choose|j: int| #[trigger] names_node(v, child, j, d);
        assert(names_node(v, child, j, d));
        assert(entries(v, child)[j].name is None);
    }
}

/// What was in use stays in use when a node is removed, but for that node, and is kept but for the
/// parent.
proof fn lemma_lost_kept(
    v: Volume,
    parent: NodeId,
    k: int,
    child: NodeId,
    kind: NodeKind,
    w: Volume,
)
    requires
        leaves(v, parent, k, child, kind, w),
    ensures
        forall|n: NodeId, l: NodeKind| #[trigger]
            in_use(w, n, l) == (in_use(v, n, l) && n != child),
        forall|n: NodeId, l: NodeKind| #[trigger]
            in_use(v, n, l) && n != parent && n != child ==> file_layout(w, n) == file_layout(v, n)
                && (l == NodeKind::Regular ==> healthy_file(w, n)) && (l == NodeKind::Directory
                ==> healthy_dir(w, n) && entries(w, n) == entries(v, n) && file_len(w, n)
                == file_len(v, n)),
{
    assert(in_use(v, parent, NodeKind::Directory));
    assert forall|n: NodeId, l: NodeKind| #[trigger] in_use(w, n, l) == (in_use(v, n, l) && n
        != child) by {
        if n == parent {
            if in_use(w, n, l) {
                lemma_one_kind(w, n, l, NodeKind::Directory);
            }
            if in_use(v, n, l) {
                lemma_one_kind(v, n, l, NodeKind::Directory);
            }
        } else if valid_node(n) && n != child {
            assert(node_kept(v, w, n));
        }
    }
    assert forall|n: NodeId, l: NodeKind| #[trigger]
        in_use(v, n, l) && n != parent && n != child implies file_layout(w, n) == file_layout(v, n)
        && (l == NodeKind::Regular ==> healthy_file(w, n)) && (l == NodeKind::Directory
        ==> healthy_dir(w, n) && entries(w, n) == entries(v, n) && file_len(w, n) == file_len(
        v,
        n,
    )) by {
        let layout = file_layout(v, n);
        lemma_sound_in_use(v, n, l);
        assert(in_use(v, child, kind));
        assert(apart(layout, file_layout(v, parent)));
        assert(apart(layout, file_layout(v, child)));
        assert(node_kept(v, w, n));
        assert forall|b: int| 0 <= b < PROFILE_BLOCKS && #[trigger] owns(layout, b) implies w.blocks[
        b] == v.blocks[b] && marked(bitmap_of(w), b) by {
            lemma_owned(v, layout, b);
            assert(ownable(v, b as u32));
            assert(!owns(file_layout(v, parent), b));
            assert(!owns(file_layout(v, child), b));
        }
        if l == NodeKind::Directory {
            assert(in_use(v, n, NodeKind::Directory));
            assert forall|i: int| 0 <= i < entries(v, n).len() implies in_use(
                w,
                (#[trigger] entries(v, n)[i]).node,
                entries(v, n)[i].kind,
            ) by {
                assert(in_use(v, entries(v, n)[i].node, entries(v, n)[i].kind));
                if entries(v, n)[i].node == child {
                    lemma_only_name(v, parent, k, child, kind, w, n, i);
                }
            }
        }
        lemma_kept_node(v, w, n, l);
    }
}

/// What names a node when a node was removed did so before.
proof fn lemma_named_before(
    v: Volume,
    parent: NodeId,
    k: int,
    child: NodeId,
    kind: NodeKind,
    w: Volume,
    d: NodeId,
    i: int,
    n: NodeId,
)
    requires
        leaves(v, parent, k, child, kind, w),
        names_node(w, d, i, n),
    ensures
        d == parent && i >= k ==> names_node(v, d, i + 1, n),
        !(d == parent && i >= k) ==> names_node(v, d, i, n),
{
    lemma_lost_kept(v, parent, k, child, kind, w);
    assert(in_use(w, d, NodeKind::Directory));
    assert(in_use(v, d, NodeKind::Directory));
    if d == parent {
        let before = entries(v, parent);
        if i < k {
            assert(before.remove(k)[i] == before[i]);
        } else {
            assert(before.remove(k)[i] == before[i + 1]);
        }
    }
}

/// What named a node before still does when another was removed.
proof fn lemma_named_after(
    v: Volume,
    parent: NodeId,
    k: int,
    child: NodeId,
    kind: NodeKind,
    w: Volume,
    d: NodeId,
    i: int,
    n: NodeId,
)
    requires
        leaves(v, parent, k, child, kind, w),
        names_node(v, d, i, n),
        d != child,
        n != child,
    ensures
        names_node(
            w,
            d,
            if d == parent && i > k {
                i - 1
            } else {
                i
            },
            n,
        ),
{
    lemma_lost_kept(v, parent, k, child, kind, w);
    assert(in_use(v, d, NodeKind::Directory));
    assert(in_use(w, d, NodeKind::Directory));
    if d == parent {
        let before = entries(v, parent);
        assert(i != k);
        if i < k {
            assert(before.remove(k)[i] == before[i]);
        } else {
            assert(before.remove(k)[i - 1] == before[i]);
        }
    }
}

/// Removing a node keeps the file system consistent.
#[verifier::rlimit(60)]
proof fn lemma_farewell(
    v: Volume,
    parent: NodeId,
    k: int,
    child: NodeId,
    kind: NodeKind,
    w: Volume,
)
    requires
        leaves(v, parent, k, child, kind, w),
        no_links(entries(w, parent)),
    ensures
        consistent(w),
{
    lemma_lost_kept(v, parent, k, child, kind, w);
    assert(in_use(v, parent, NodeKind::Directory));
    assert forall|n: NodeId| #[trigger] in_use(w, n, NodeKind::Regular) implies healthy_file(
        w,
        n,
    ) by {
        assert(in_use(v, n, NodeKind::Regular));
        if n == parent {
            lemma_one_kind(v, n, NodeKind::Regular, NodeKind::Directory);
        }
    }
    assert forall|n: NodeId| #[trigger] in_use(w, n, NodeKind::Directory) implies healthy_dir(w, n)
        && file_len(w, n) % (BLOCK_BYTES as int) == 0 && no_links(entries(w, n)) by {
        assert(in_use(v, n, NodeKind::Directory));
        if n != parent {
            assert(entries(w, n) == entries(v, n));
        }
    }
    assert forall|a: NodeId, j: NodeKind, b: NodeId, l: NodeKind| #[trigger]
        in_use(w, a, j) && #[trigger] in_use(w, b, l) && a != b implies apart(
        file_layout(w, a),
        file_layout(w, b),
    ) by {
        assert(in_use(v, a, j) && in_use(v, b, l));
        assert(file_layout(w, a) == file_layout(v, a));
        assert(file_layout(w, b) == file_layout(v, b));
        assert(apart(file_layout(v, a), file_layout(v, b)));
    }
    assert forall|d: NodeId, i: int, e: NodeId, j: int, n: NodeId| #[trigger]
        names_node(w, d, i, n) && #[trigger] names_node(w, e, j, n) implies d == e && i == j by {
        lemma_named_before(v, parent, k, child, kind, w, d, i, n);
        lemma_named_before(v, parent, k, child, kind, w, e, j, n);
        let a = if d == parent && i >= k {
            i + 1
        } else {
            i
        };
        let b = if e == parent && j >= k {
            j + 1
        } else {
            j
        };
        assert(names_node(v, d, a, n) && names_node(v, e, b, n));
    }
    assert forall|d: NodeId, i: int|
        in_use(w, d, NodeKind::Directory) && 0 <= i < entries(w, d).len() && (#[trigger] entries(
            w,
            d,
        )[i]).name is None implies dot_entry(w, d, i) by {
        assert(in_use(v, d, NodeKind::Directory) && d != child);
        let a = if d == parent && i >= k {
            i + 1
        } else {
            i
        };
        assert(entries(v, d)[a] == entries(w, d)[i]) by {
            if d == parent {
                let before = entries(v, parent);
                assert(before.remove(k)[i] == before[a]);
            }
        }
        assert(dot_entry(v, d, a));
        let node = entries(v, d)[a].node;
        if node == child {
            lemma_only_name(v, parent, k, child, kind, w, d, a);
        }
        assert(in_use(v, node, NodeKind::Directory));
        assert(in_use(w, node, NodeKind::Directory));
        if node != d {
            let j = choose|j: int| #[trigger] names_node(v, node, j, d);
            lemma_named_after(v, parent, k, child, kind, w, node, j, d);
        }
    }
}

/// A directory without named entries lists none.
proof fn lemma_unnamed(entries: Seq<Entry>)
    requires
        named(entries).len() == 0,
    ensures
        forall|i: int| 0 <= i < entries.len() ==> (#[trigger] entries[i]).name is None,
    decreases entries.len(),
{
    if entries.len() > 0 {
        lemma_unnamed(entries.drop_last());
        assert forall|i: int| 0 <= i < entries.len() implies (#[trigger] entries[i]).name is None by {
            if i < entries.len() - 1 {
                assert(entries.drop_last()[i] == entries[i]);
            }
        }
    }
}

/// Removing files and directories keeps the file system consistent.
pub proof fn law_removing_keeps_the_file_system_consistent(
    v: Volume,
    parent: NodeId,
    name: Seq<u8>,
)
    requires
        consistent(v),
        in_use(v, parent, NodeKind::Directory),
    ensures
        unlink_file_step(v, parent, name).result is Ok ==> consistent(
            unlink_file_step(v, parent, name).volume,
        ),
        remove_dir_step(v, parent, name).result is Ok ==> consistent(
            remove_dir_step(v, parent, name).volume,
        ),
{
    assert(healthy_dir(v, parent) && no_links(entries(v, parent)));
    law_lookup_gives_the_entry(v, parent, name);
    lemma_find(entries(v, parent), name);
    if let Some(child) = find(entries(v, parent), name) {
        let all = entries(v, parent);
        let k = choose|k: int|
            0 <= k < all.len() && (#[trigger] all[k]).name == Some(name) && all[k].node == child
                && lacks(all.take(k), name);
        assert(names_node(v, parent, k, child));
        assert(in_use(v, child, all[k].kind));
        if child == parent {
            lemma_named(all, name);
            if child.0 != 2 {
                law_only_an_empty_directory_is_removed(v, parent, name, child);
            }
        } else {
            assert(apart(file_layout(v, child), file_layout(v, parent)));
            law_a_removed_file_is_gone(v, parent, name);
            law_a_removed_directory_is_gone(v, parent, name);
            if unlink_file_step(v, parent, name).result is Ok {
                let w = unlink_file_step(v, parent, name).volume;
                lemma_taken_at(all, name, child, entries(w, parent), k);
                assert(all[k].kind == NodeKind::Regular);
                lemma_farewell(v, parent, k, child, NodeKind::Regular, w);
            }
            if remove_dir_step(v, parent, name).result is Ok {
                let w = remove_dir_step(v, parent, name).volume;
                lemma_taken_at(all, name, child, entries(w, parent), k);
                reveal(require_empty_step);
                let u = lookup_step(v, parent, name).volume;
                let x = load_step(u, child).volume;
                assert(all[k].kind == NodeKind::Directory);
                assert(in_use(v, child, NodeKind::Directory));
                lemma_reread(v, x, child);
                law_lookup_gives_the_entry(x, child, name);
                lemma_unnamed(entries(v, child));
                lemma_farewell(v, parent, k, child, NodeKind::Directory, w);
            }
        }
    } else {
        assert(!(lookup_step(v, parent, name).result is Ok));
    }
}

/// The first entry with a name is the one that is taken out.
proof fn lemma_taken_at(
    before: Seq<Entry>,
    name: Seq<u8>,
    node: NodeId,
    after: Seq<Entry>,
    k: int,
)
    requires
        taken_out(before, name, node, after),
        0 <= k < before.len(),
        before[k].name == Some(name),
        lacks(before.take(k), name),
    ensures
        after == before.remove(k),
{
    let j = choose|j: int|
        0 <= j < before.len() && before[j].name == Some(name) && before[j].node == node && lacks(
            before.take(j),
            name,
        ) && after == #[trigger] before.remove(j);
    if j < k {
        assert(before.take(k)[j] == before[j]);
    } else if k < j {
        assert(before.take(j)[k] == before[k]);
    }
}

} // verus!
