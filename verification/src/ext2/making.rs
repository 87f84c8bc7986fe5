//! Creating a file or a directory succeeds where a node and enough blocks are free and the device
//! carries out every request.
use vstd::prelude::*;

use crate::bytes::{le16, le32, splice, to_le16};
use crate::fs::{name_check, NodeId, NodeKind};

use super::allocator::{
    adjust_counts_step, block_counter, claim_block_step, claim_inode_step, first_free_inode,
    inode_counter, mark_step, marked, with_mark, PROFILE_INODES, RESERVED_INODES,
};
use super::contents::{
    accounting, bitmap_of, file_layout, file_len, file_record, law_claim_takes_a_free_block,
    lemma_claim_marks, lemma_store, lemma_write, ownable, owns,
};
use super::creation::{
    blank_block, gained, law_a_new_directory_is_found, law_a_new_file_is_found, lemma_claim_inode,
    lemma_found_directory, lemma_insert_existing, lemma_new_directory_block,
    lemma_new_directory_record, lemma_new_file_record,
};
use super::cut_creation::lemma_blank_block;
use super::directory::{
    block_limit, blocks_for, dot_name, encoded, find, free_slot, grown, insert_existing,
    insert_fresh, insert_step, kind_of, live, lookup_step, named, only_read, placed, read_dir_step,
    record_at, resolve_dir_step, scan_block, scan_blocks, type_of, Entry, NewEntry,
};
use super::entries::{insertable, lacks};
use super::inode::{
    load_block_step, load_step, metadata_of, pointer_of, store_step, supported, table_block,
    valid_node, DIRECT_BLOCKS,
};
use super::mutation::{
    create_dir_step, create_file_step, found_directory_step, new_directory_block,
    new_directory_record, new_file_record, parent_links_step, require_absent_step, used_dirs_step,
};
use super::on_disk::{
    BLOCK_BYTES, GROUP_DESCRIPTOR_USED_DIRS, INODE_BLOCK, INODE_BLOCKS, INODE_LINKS,
};
use super::refusal::{lemma_absent, lemma_block_lacks};
use super::resizing::lemma_store_aside;
use super::space::{
    lemma_answered, lemma_claim, lemma_counts, lemma_stores, lemma_write_aside, ready, same_counts,
    spare, used_dirs,
};
use super::tree::{
    entries, healthy_dir, in_use, law_lookup_gives_the_entry, lemma_find, lemma_kept_by,
    lemma_load_directory_block, lemma_owned, lemma_reread, lemma_used_dirs, node_kept,
};
use super::volume::{answering, Volume};
use super::{Ext2Error, PROFILE_BLOCKS};

verus! {

/// A node can be claimed, and the file system's own counts of free nodes agree.
pub open spec fn spare_node(v: Volume) -> bool {
    &&& exists|n: int|
        RESERVED_INODES < n <= PROFILE_INODES && !#[trigger] marked(
            v.blocks[v.geometry.inode_bitmap as int],
            n - 1,
        )
    &&& le32(v.blocks[0], inode_counter().super_offset as int) >= 1
    &&& le16(v.blocks[1], inode_counter().group_offset as int) >= 1
}

/// A directory can be given one more block.
pub open spec fn extendable(v: Volume, dir: NodeId) -> bool {
    &&& free_slot(file_record(v, dir), 0) is Some
    &&& le32(file_record(v, dir), INODE_BLOCKS as int) + 8 <= u32::MAX
}

proof fn lemma_scan_block_answered(
    v: Volume,
    block: Seq<u8>,
    offset: int,
    limit: int,
    seen: Seq<Entry>,
)
    requires
        answering(v),
    ensures
        scan_block(v, block, offset, limit, seen).result matches Err(e) ==> !(e is Block),
        answering(scan_block(v, block, offset, limit, seen).volume),
    decreases limit - offset,
{
    if offset < limit && record_at(block, offset, limit) is Ok {
        let record = record_at(block, offset, limit)->Ok_0;
        let next = offset + record.length;
        if record.length > 0 && live(record) is Ok {
            match live(record)->Ok_0 {
                None => lemma_scan_block_answered(v, block, next, limit, seen),
                Some(entry) => {
                    let child = load_step(v, entry.node);
                    lemma_scan_block_answered(child.volume, block, next, limit, seen.push(entry));
                },
            }
        }
    }
}

proof fn lemma_scan_blocks_answered(
    v: Volume,
    record: Seq<u8>,
    logical: int,
    seen: Seq<Entry>,
)
    requires
        answering(v),
    ensures
        scan_blocks(v, record, logical, seen).result matches Err(e) ==> !(e is Block),
    decreases blocks_for(metadata_of(record)->Ok_0.len as int) - logical,
{
    let len = metadata_of(record)->Ok_0.len as int;
    if logical < blocks_for(len) {
        let loaded = load_block_step(v, record, logical);
        if let Ok(block) = loaded.result {
            let limit = block_limit(len, logical);
            lemma_scan_block_answered(loaded.volume, block, 0, limit, seen);
            let scanned = scan_block(loaded.volume, block, 0, limit, seen);
            if let Ok(seen) = scanned.result {
                lemma_scan_blocks_answered(scanned.volume, record, logical + 1, seen);
            }
        }
    }
}

/// Where the device carries out every request, a lookup in a healthy directory gives the node of
/// the entry that has the name.
pub(crate) proof fn lemma_lookup_answered(v: Volume, dir: NodeId, name: Seq<u8>)
    requires
        healthy_dir(v, dir),
        answering(v),
    ensures
        only_read(v, lookup_step(v, dir, name).volume),
        lookup_step(v, dir, name).result == match find(entries(v, dir), name) {
            Some(node) => Ok::<NodeId, Ext2Error>(node),
            None => Err(Ext2Error::NotFound),
        },
{
    law_lookup_gives_the_entry(v, dir, name);
    let s = load_step(v, dir);
    if s.result is Ok {
        lemma_scan_blocks_answered(s.volume, s.result->Ok_0, 0, Seq::empty());
    }
}

/// Where the device carries out every request, a healthy directory can be listed.
pub(crate) proof fn lemma_list_answered(v: Volume, dir: NodeId)
    requires
        healthy_dir(v, dir),
        answering(v),
    ensures
        only_read(v, read_dir_step(v, dir).volume),
        read_dir_step(v, dir).result == Ok::<_, Ext2Error>(named(entries(v, dir))),
{
    law_lookup_gives_the_entry(v, dir, Seq::empty());
    let s = load_step(v, dir);
    if s.result is Ok {
        lemma_scan_blocks_answered(s.volume, s.result->Ok_0, 0, Seq::empty());
    }
}

/// A healthy directory can be loaded.
pub(crate) proof fn lemma_load_answered(v: Volume, dir: NodeId)
    requires
        v.wf(),
        answering(v),
        valid_node(dir),
        supported(file_record(v, dir)),
    ensures
        load_step(v, dir).result == Ok::<_, Ext2Error>(file_record(v, dir)),
        load_step(v, dir).volume == v.ticked(),
        answering(v.ticked()),
{
    lemma_answered(v, table_block(v.geometry, dir), Seq::empty());
}

proof fn lemma_absent_succeeds(v: Volume, dir: NodeId, name: Seq<u8>)
    requires
        healthy_dir(v, dir),
        ready(v),
        lacks(entries(v, dir), name),
    ensures
        require_absent_step(v, dir, name).result is Ok,
        only_read(v, require_absent_step(v, dir, name).volume),
        ready(require_absent_step(v, dir, name).volume),
{
    reveal(require_absent_step);
    lemma_load_answered(v, dir);
    let u = v.ticked();
    lemma_reread(v, u, dir);
    lemma_lookup_answered(u, dir, name);
    lemma_find(entries(v, dir), name);
}

proof fn lemma_first_inode(bitmap: Seq<u8>, from: int, n: int)
    requires
        0 < from <= n <= PROFILE_INODES,
        !marked(bitmap, n - 1),
    ensures
        first_free_inode(bitmap, from) matches Some(found) && from <= found <= n,
    decreases n - from,
{
    if marked(bitmap, from - 1) {
        lemma_first_inode(bitmap, from + 1, n);
    }
}

/// A claim of a node succeeds where one is free, and keeps the blocks that are.
proof fn lemma_claim_inode_succeeds(v: Volume, n: int)
    requires
        ready(v),
        spare_node(v),
        spare(v, n),
    ensures
        claim_inode_step(v).result is Ok,
        ready(claim_inode_step(v).volume),
        spare(claim_inode_step(v).volume, n),
        used_dirs(claim_inode_step(v).volume) == used_dirs(v),
{
    reveal(claim_inode_step);
    reveal(mark_step);
    let ib = v.geometry.inode_bitmap;
    let bitmap = v.blocks[ib as int];
    let k = choose|k: int|
        RESERVED_INODES < k <= PROFILE_INODES && !#[trigger] marked(bitmap, k - 1);
    lemma_first_inode(bitmap, RESERVED_INODES + 1, k);
    let b = first_free_inode(bitmap, RESERVED_INODES + 1)->0;
    lemma_answered(v, ib, Seq::empty());
    let u = v.ticked();
    let changed = with_mark(bitmap, b - 1, true);
    lemma_write(u, ib, changed);
    lemma_answered(u, ib, changed);
    let t = u.write(ib, changed).volume;
    assert(t.blocks[0] == v.blocks[0] && t.blocks[1] == v.blocks[1]);
    lemma_counts(t, inode_counter(), true);
    let x = adjust_counts_step(t, inode_counter(), true).volume;
    lemma_answered(x, 0, Seq::empty());
    let w = claim_inode_step(v).volume;
    assert(w.blocks == x.blocks);
    assert(bitmap_of(w) == bitmap_of(v));
    let at = block_counter().super_offset as int;
    assert(le32(w.blocks[0], at) == le32(v.blocks[0], at)) by {
        assert(forall|i: int| at <= i < at + 4 ==> #[trigger] w.blocks[0][i] == v.blocks[0][i]);
    }
    let at = GROUP_DESCRIPTOR_USED_DIRS as int;
    assert(used_dirs(w) == used_dirs(v)) by {
        assert(forall|i: int| at <= i < at + 2 ==> #[trigger] w.blocks[1][i] == v.blocks[1][i]);
    }
    let at = block_counter().group_offset as int;
    assert(le16(w.blocks[1], at) == le16(v.blocks[1], at)) by {
        assert(forall|i: int| at <= i < at + 2 ==> #[trigger] w.blocks[1][i] == v.blocks[1][i]);
    }
}

proof fn lemma_insert_existing_succeeds(
    v: Volume,
    u: Volume,
    dir: NodeId,
    l: int,
    new: NewEntry,
)
    requires
        healthy_dir(v, dir),
        only_read(v, u),
        answering(u),
        0 <= l <= blocks_for(file_len(v, dir)),
        lacks(entries(v, dir), new.name),
    ensures
        insert_existing(u, file_record(v, dir), l, new).result is Ok,
        answering(insert_existing(u, file_record(v, dir), l, new).volume),
    decreases blocks_for(file_len(v, dir)) - l,
{
    let record = file_record(v, dir);
    let len = file_len(v, dir);
    if l < blocks_for(len) {
        lemma_load_directory_block(v, u, dir, l);
        lemma_block_lacks(v, dir, l, new.name);
        let number = file_layout(v, dir).data[l];
        let limit = block_limit(len, l);
        let found = resolve_dir_step(u, record, l);
        assert(found.result is Ok && answering(found.volume));
        lemma_answered(found.volume, number, Seq::empty());
        let loaded = found.volume.read_for_update(number);
        let block = loaded.result->Ok_0;
        lemma_absent(block, 0, limit, new.name);
        match placed(block, 0, limit, new.node, new.file_type, new.name) {
            None => lemma_insert_existing_succeeds(v, loaded.volume, dir, l + 1, new),
            Some(changed) => lemma_answered(loaded.volume, number, changed),
        }
    }
}

proof fn lemma_insert_fresh_succeeds(v: Volume, dir: NodeId, new: NewEntry)
    requires
        healthy_dir(v, dir),
        ready(v),
        spare(v, 1),
        extendable(v, dir),
    ensures
        insert_fresh(v, dir, new).result is Ok,
{
    reveal(insert_fresh);
    lemma_claim(v, 1);
    law_claim_takes_a_free_block(v);
    let block = claim_block_step(v).result->Ok_0;
    let v1 = claim_block_step(v).volume;
    lemma_blank_block();
    lemma_write_aside(v1, block, blank_block());
    lemma_write(v1, block, blank_block());
    let v2 = v1.write_through(block, blank_block()).volume;
    let t = table_block(v.geometry, dir);
    assert(v.geometry.structural(t) && !accounting(v, t as int));
    assert(v1.blocks[t as int] == v.blocks[t as int]);
    assert(file_record(v2, dir) == file_record(v, dir));
    lemma_load_answered(v2, dir);
    let v3 = v2.ticked();
    let inode = file_record(v, dir);
    let slot = free_slot(inode, 0)->0;
    lemma_stores(v3, dir, grown(inode, slot, block));
    let v4 = store_step(v3, dir, grown(inode, slot, block)).volume;
    lemma_answered(
        v4,
        block,
        encoded(new.node, BLOCK_BYTES as int, new.file_type, new.name),
    );
}

/// Putting an entry into a healthy directory that lacks its name succeeds, where the directory can
/// grow.
proof fn lemma_insert_succeeds(v: Volume, dir: NodeId, new: NewEntry)
    requires
        healthy_dir(v, dir),
        ready(v),
        spare(v, 1),
        extendable(v, dir),
        lacks(entries(v, dir), new.name),
        insertable(new.node, new.file_type, new.name),
        in_use(v, NodeId(new.node), kind_of(new.file_type)->0),
    ensures
        insert_step(v, dir, new).result is Ok,
{
    reveal(insert_step);
    lemma_load_answered(v, dir);
    let u = v.ticked();
    lemma_insert_existing_succeeds(v, u, dir, 0, new);
    lemma_insert_existing(v, u, dir, 0, new);
    let t = insert_existing(u, file_record(v, dir), 0, new);
    if t.result == Ok::<bool, Ext2Error>(false) {
        lemma_reread(v, t.volume, dir);
        lemma_insert_fresh_succeeds(t.volume, dir, new);
    }
}

/// Creating a file under a name that a directory lacks succeeds where a node is free, and a block
/// for the directory should it have to grow, and the device carries out every request. The
/// directory then has the entry.
pub proof fn law_creating_a_file_succeeds(v: Volume, parent: NodeId, name: Seq<u8>)
    requires
        healthy_dir(v, parent),
        file_len(v, parent) % (BLOCK_BYTES as int) == 0,
        ready(v),
        name_check(name) is Ok,
        !dot_name(name),
        lacks(entries(v, parent), name),
        spare_node(v),
        spare(v, 1),
        extendable(v, parent),
    ensures
        create_file_step(v, parent, name).result matches Ok(node) && gained(
            v,
            parent,
            Entry { node, name: Some(name), kind: NodeKind::Regular },
            create_file_step(v, parent, name).volume,
        ),
{
    lemma_absent_succeeds(v, parent, name);
    let v1 = require_absent_step(v, parent, name).volume;
    lemma_reread(v, v1, parent);
    lemma_claim_inode_succeeds(v1, 1);
    lemma_claim_inode(v1, parent);
    let number = claim_inode_step(v1).result->Ok_0;
    let node = NodeId(number);
    let v2 = claim_inode_step(v1).volume;
    lemma_new_file_record();
    lemma_store_aside(v2, node, new_file_record());
    lemma_store(v2, node, new_file_record());
    let v3 = store_step(v2, node, new_file_record()).volume;
    let t = table_block(v.geometry, node);
    let m = v.geometry.inode_bitmap;
    assert(v.geometry.structural(m) && t != m);
    assert(bitmap_of(v3) == bitmap_of(v1));
    assert forall|other: NodeId| valid_node(other) && other != node implies #[trigger] node_kept(
        v1,
        v3,
        other,
    ) by {
        assert(node_kept(v1, v2, other));
    }
    lemma_kept_by(v1, v3, parent, node);
    assert(node_kept(v1, v3, parent));
    let new = NewEntry { node: number, file_type: type_of(NodeKind::Regular), name };
    lemma_insert_succeeds(v3, parent, new);
    law_a_new_file_is_found(v, parent, name);
}

proof fn lemma_free_slot_kept(a: Seq<u8>, b: Seq<u8>, from: int)
    requires
        0 <= from,
        forall|i: int| 0 <= i < DIRECT_BLOCKS ==> #[trigger] pointer_of(a, i) == pointer_of(b, i),
    ensures
        free_slot(a, from) == free_slot(b, from),
    decreases DIRECT_BLOCKS - from,
{
    if from < DIRECT_BLOCKS {
        assert(pointer_of(a, from) == pointer_of(b, from));
        lemma_free_slot_kept(a, b, from + 1);
    }
}

/// Counting a directory more succeeds, and keeps the counts of free blocks.
proof fn lemma_used_dirs_succeeds(v: Volume, n: int)
    requires
        ready(v),
        spare(v, n),
        used_dirs(v) < u16::MAX,
    ensures
        used_dirs_step(v, true).result is Ok,
        ready(used_dirs_step(v, true).volume),
        spare(used_dirs_step(v, true).volume, n),
{
    lemma_used_dirs(v, true);
    lemma_answered(v, 1, Seq::empty());
    let u = v.ticked();
    let at = GROUP_DESCRIPTOR_USED_DIRS as int;
    let group = splice(v.blocks[1], at, to_le16((used_dirs(v) + 1) as u16));
    lemma_answered(u, 1, group);
    lemma_write(u, 1, group);
    let w = used_dirs_step(v, true).volume;
    assert(w.blocks == v.blocks.update(1, group));
    let c = block_counter().group_offset as int;
    assert(le16(w.blocks[1], c) == le16(v.blocks[1], c)) by {
        assert(forall|i: int| c <= i < c + 2 ==> #[trigger] group[i] == v.blocks[1][i]);
    }
}

/// Counting a link more succeeds, and keeps the directory's blocks and the counts of free ones.
proof fn lemma_links_succeed(v: Volume, dir: NodeId)
    requires
        ready(v),
        valid_node(dir),
        supported(file_record(v, dir)),
        metadata_of(file_record(v, dir))->Ok_0.kind == NodeKind::Directory,
        le16(file_record(v, dir), INODE_LINKS as int) < u16::MAX,
        extendable(v, dir),
    ensures
        parent_links_step(v, dir, true).result is Ok,
        ready(parent_links_step(v, dir, true).volume),
        same_counts(v, parent_links_step(v, dir, true).volume),
        extendable(parent_links_step(v, dir, true).volume, dir),
{
    lemma_load_answered(v, dir);
    let u = v.ticked();
    let record = file_record(v, dir);
    let links = (le16(record, INODE_LINKS as int) + 1) as u16;
    let image = splice(record, INODE_LINKS as int, to_le16(links));
    lemma_store_aside(u, dir, image);
    lemma_store(u, dir, image);
    let w = store_step(u, dir, image).volume;
    assert(parent_links_step(v, dir, true).volume == w);
    assert(file_record(w, dir) == image);
    assert forall|i: int| 0 <= i < DIRECT_BLOCKS implies #[trigger] pointer_of(image, i)
        == pointer_of(record, i) by {
        let at = INODE_BLOCK + 4 * i;
        assert(forall|k: int| at <= k < at + 4 ==> #[trigger] image[k] == record[k]);
    }
    lemma_free_slot_kept(image, record, 0);
    let at = INODE_BLOCKS as int;
    assert(forall|k: int| at <= k < at + 4 ==> #[trigger] image[k] == record[k]);
}

proof fn lemma_found_directory_succeeds(
    v: Volume,
    parent: NodeId,
    number: u32,
    block: u32,
    n: int,
)
    requires
        healthy_dir(v, parent),
        ready(v),
        valid_node(NodeId(number)),
        NodeId(number) != parent,
        block < PROFILE_BLOCKS,
        !v.geometry.structural(block),
        spare(v, n),
        used_dirs(v) < u16::MAX,
        le16(file_record(v, parent), INODE_LINKS as int) < u16::MAX,
        extendable(v, parent),
    ensures
        ({
            let s = found_directory_step(v, parent, number, block);
            &&& s.result is Ok
            &&& ready(s.volume)
            &&& spare(s.volume, n)
            &&& extendable(s.volume, parent)
        }),
{
    reveal(found_directory_step);
    let node = NodeId(number);
    let record = new_directory_record(block);
    lemma_new_directory_record(block);
    lemma_store_aside(v, node, record);
    lemma_store(v, node, record);
    let v1 = store_step(v, node, record).volume;
    let content = new_directory_block(number, parent.0);
    lemma_new_directory_block(number, parent.0);
    lemma_write_aside(v1, block, content);
    lemma_write(v1, block, content);
    let v2 = v1.write_through(block, content).volume;
    lemma_used_dirs_succeeds(v2, n);
    lemma_used_dirs(v2, true);
    let v3 = used_dirs_step(v2, true).volume;
    let t = table_block(v.geometry, parent);
    assert(v.geometry.structural(t) && t >= 2);
    assert(file_record(v1, parent) == file_record(v, parent));
    assert(file_record(v3, parent) == file_record(v, parent));
    lemma_links_succeed(v3, parent);
}

#[verifier::rlimit(30)]
proof fn lemma_create_dir_succeeds(v: Volume, parent: NodeId, name: Seq<u8>)
    requires
        healthy_dir(v, parent),
        file_len(v, parent) % (BLOCK_BYTES as int) == 0,
        ready(v),
        name_check(name) is Ok,
        !dot_name(name),
        lacks(entries(v, parent), name),
        spare_node(v),
        spare(v, 2),
        extendable(v, parent),
        used_dirs(v) < u16::MAX,
        le16(file_record(v, parent), INODE_LINKS as int) < u16::MAX,
    ensures
        create_dir_step(v, parent, name).result is Ok,
{
    lemma_absent_succeeds(v, parent, name);
    let v1 = require_absent_step(v, parent, name).volume;
    lemma_reread(v, v1, parent);
    lemma_claim_inode_succeeds(v1, 2);
    lemma_claim_inode(v1, parent);
    let number = claim_inode_step(v1).result->Ok_0;
    let node = NodeId(number);
    let v2 = claim_inode_step(v1).volume;
    lemma_claim(v2, 2);
    law_claim_takes_a_free_block(v2);
    lemma_claim_marks(v2);
    let block = claim_block_step(v2).result->Ok_0;
    let v3 = claim_block_step(v2).volume;
    let m = v.geometry.inode_bitmap;
    assert(v.geometry.structural(m) && !accounting(v, m as int));
    assert(v3.blocks[m as int] == v2.blocks[m as int]);
    assert forall|other: NodeId| valid_node(other) && other != node implies #[trigger] node_kept(
        v1,
        v3,
        other,
    ) by {
        assert(node_kept(v1, v2, other));
        let o = table_block(v.geometry, other);
        assert(v.geometry.structural(o) && !accounting(v, o as int));
        assert(v3.blocks[o as int] == v2.blocks[o as int]);
    }
    assert forall|b: u32| #[trigger] ownable(v1, b) implies v3.blocks[b as int]
        == v1.blocks[b as int] by {
        assert(!accounting(v, b as int));
        assert(v3.blocks[b as int] == v2.blocks[b as int]);
    }
    lemma_kept_by(v1, v3, parent, node);
    assert(node_kept(v1, v3, parent));
    assert(!owns(file_layout(v3, parent), block as int)) by {
        if owns(file_layout(v, parent), block as int) {
            lemma_owned(v, file_layout(v, parent), block as int);
        }
    }
    assert(node != parent);
    assert forall|i: int| 0 <= i < entries(v3, parent).len() implies (#[trigger] entries(
        v3,
        parent,
    )[i]).node.0 != number by {
        assert(in_use(v, entries(v, parent)[i].node, entries(v, parent)[i].kind));
    }
    lemma_found_directory_succeeds(v3, parent, number, block, 1);
    lemma_found_directory(v3, parent, number, block);
    let v4 = found_directory_step(v3, parent, number, block).volume;
    let new = NewEntry { node: number, file_type: type_of(NodeKind::Directory), name };
    lemma_insert_succeeds(v4, parent, new);
}

/// Creating a directory under a name that its parent lacks succeeds where a node is free, and a
/// block for the new directory and one for its parent should that have to grow, the counts of
/// directories and of links have room, and the device carries out every request. The parent then
/// has the entry.
pub proof fn law_creating_a_directory_succeeds(v: Volume, parent: NodeId, name: Seq<u8>)
    requires
        healthy_dir(v, parent),
        file_len(v, parent) % (BLOCK_BYTES as int) == 0,
        ready(v),
        name_check(name) is Ok,
        !dot_name(name),
        lacks(entries(v, parent), name),
        spare_node(v),
        spare(v, 2),
        extendable(v, parent),
        used_dirs(v) < u16::MAX,
        le16(file_record(v, parent), INODE_LINKS as int) < u16::MAX,
    ensures
        create_dir_step(v, parent, name).result matches Ok(node) && gained(
            v,
            parent,
            Entry { node, name: Some(name), kind: NodeKind::Directory },
            create_dir_step(v, parent, name).volume,
        ),
{
    lemma_create_dir_succeeds(v, parent, name);
    law_a_new_directory_is_found(v, parent, name);
}

} // verus!
