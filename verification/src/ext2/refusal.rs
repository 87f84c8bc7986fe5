//! What a refused change leaves.
use vstd::prelude::*;

use crate::bytes::{le16, splice, to_le16, zeros};
use crate::fs::{name_check, NodeId, NodeKind};

use super::allocator::{
    adjust_counts_step, claim_block_step, claim_inode_step, mark_step, release_block_step,
    release_inode_step, PROFILE_INODES, RESERVED_INODES,
};
use super::contents::{
    accounting, bitmap_of, file_layout, file_len, file_record, law_claim_takes_a_free_block,
    lemma_claim_marks, lemma_store, lemma_write, ownable, owns,
};
use super::creation::{
    blank_block, lemma_claim_inode, lemma_found_directory, lemma_insert_existing,
    lemma_new_directory_block, lemma_new_directory_record, lemma_new_file_record,
    lemma_require_absent,
};
use super::cut_creation::lemma_blank_block;
use super::directory::{
    absent, block_limit, blocks_for, dot_name, free_slot, grown, insert_existing, insert_fresh,
    insert_step, kind_of, live, lookup_step, only_read, placed, record_at, remove_from, remove_step,
    resolve_dir_step, type_of, without, NewEntry,
};
use super::entries::{entries_of, insertable, lacks, law_an_entry_is_taken_out_of_its_block};
use super::inode::{
    load_step, metadata_of, store_step, supported, table_block, valid_node, INODE_BYTES,
};
use super::laws::law_reading_changes_nothing;
use super::mutation::{
    claim_missing, cleared, create_dir_step, create_file_step, detach_step, discard_step,
    drop_directory_step, ensure_indirect_step, fill_from, fill_step, found_directory_step, greater,
    grow_step, indirect_gap, layout_step, new_directory_block, new_directory_record,
    new_file_record, parent_links_step, published, release_all, release_indirect_step,
    remove_dir_step, require_absent_step, require_empty_step, shrink_step, trimmed, truncate_step,
    unlink_file_step, used_dirs_step, write_at_step, write_indirect_step, write_step, Layout,
    TABLE_LEN,
};
use super::on_disk::{BLOCK_BYTES, INODE_LINKS};
use super::removal::{lemma_discard, lemma_named, lemma_remove};
use super::tree::{
    directory_blocks, entries, gathered, healthy_dir, in_use, law_lookup_gives_the_entry,
    lemma_find, lemma_gathered, lemma_kept_by, lemma_load_directory_block, lemma_owned,
    lemma_reread, lemma_used_dirs, node_kept,
};
use super::volume::{Step, Volume};
use super::{Ext2Error, MountHealth, PROFILE_BLOCKS};

verus! {

/// A request was refused: neither did the device fail, nor was space short or the disk damaged.
pub open spec fn refusal(error: Ext2Error) -> bool {
    !(error is Block) && !(error is CorruptMetadata) && error != Ext2Error::NoSpace
}

/// A request that was refused changed nothing.
pub open spec fn refused_cleanly<T>(v: Volume, s: Step<T>) -> bool {
    s.result matches Err(e) && refusal(e) ==> only_read(v, s.volume)
}

/// A part of a change that does not refuse: it goes on, or the device, the space or the disk is
/// at fault.
spec fn goes_on<T>(v: Volume, s: Step<T>) -> bool {
    match s.result {
        Ok(_) => s.volume.health == v.health,
        Err(e) => !refusal(e),
    }
}

/// Claims and releases go on where the file system is writable.
proof fn lemma_accounts_go_on(v: Volume, b: u32, n: u32)
    requires
        v.health == MountHealth::Writable,
        RESERVED_INODES < n <= PROFILE_INODES,
    ensures
        goes_on(v, claim_block_step(v)),
        goes_on(v, release_block_step(v, b)),
        goes_on(v, claim_inode_step(v)),
        goes_on(v, release_inode_step(v, n)),
{
    reveal(claim_block_step);
    reveal(release_block_step);
    reveal(claim_inode_step);
    reveal(release_inode_step);
    reveal(mark_step);
    reveal(adjust_counts_step);
}

proof fn lemma_store_goes_on(v: Volume, node: NodeId, record: Seq<u8>)
    requires
        valid_node(node),
    ensures
        goes_on(v, store_step(v, node, record)),
{
    reveal(store_step);
}

proof fn lemma_claim_missing_goes_on(
    v: Volume,
    data: Seq<u32>,
    logical: int,
    needed: int,
    zeroed: bool,
)
    requires
        v.health == MountHealth::Writable,
    ensures
        goes_on(v, claim_missing(v, data, logical, needed, zeroed)),
    decreases needed - logical,
{
    if logical < needed {
        if data[logical] != 0 {
            lemma_claim_missing_goes_on(v, data, logical + 1, needed, zeroed);
        } else {
            lemma_accounts_go_on(v, 0, 12);
            let claimed = claim_block_step(v);
            if let Ok(block) = claimed.result {
                let ready = if zeroed {
                    claimed.volume.write_through(block, zeros(BLOCK_BYTES as nat))
                } else {
                    claimed.volume.done(())
                };
                if ready.result is Ok {
                    lemma_claim_missing_goes_on(
                        ready.volume,
                        data.update(logical, block),
                        logical + 1,
                        needed,
                        zeroed,
                    );
                }
            }
        }
    }
}

proof fn lemma_fill_goes_on(
    v: Volume,
    before: Seq<u32>,
    data: Seq<u32>,
    offset: int,
    src: Seq<u8>,
    logical: int,
    needed: int,
)
    ensures
        goes_on(v, fill_from(v, before, data, offset, src, logical, needed)),
    decreases needed - logical,
{
    if logical < needed {
        let filled = fill_step(v, before, data, offset, src, logical);
        if filled.result is Ok {
            lemma_fill_goes_on(filled.volume, before, data, offset, src, logical + 1, needed);
        }
    }
}

proof fn lemma_release_all_goes_on(v: Volume, data: Seq<u32>, from: int, to: int)
    requires
        v.health == MountHealth::Writable,
    ensures
        goes_on(v, release_all(v, data, from, to)),
    decreases to - from,
{
    if from < to {
        if data[from] == 0 {
            lemma_release_all_goes_on(v, data, from + 1, to);
        } else {
            lemma_accounts_go_on(v, data[from], 12);
            let released = release_block_step(v, data[from]);
            if released.result is Ok {
                lemma_release_all_goes_on(released.volume, data, from + 1, to);
            }
        }
    }
}

/// Writing to a file goes on once it has begun.
proof fn lemma_write_goes_on(v: Volume, node: NodeId, record: Seq<u8>, offset: int, src: Seq<u8>)
    requires
        v.health == MountHealth::Writable,
        valid_node(node),
    ensures
        goes_on(v, write_step(v, node, record, offset, src)),
{
    reveal(write_step);
    let size = greater(metadata_of(record)->Ok_0.len as int, offset + src.len());
    let needed = blocks_for(size);
    let s1 = layout_step(v, record);
    if let Ok(old_layout) = s1.result {
        lemma_accounts_go_on(s1.volume, 0, 12);
        let s2 = ensure_indirect_step(s1.volume, old_layout, needed);
        if let Ok(rooted) = s2.result {
            lemma_claim_missing_goes_on(s2.volume, rooted.data, 0, needed, false);
            let s3 = claim_missing(s2.volume, rooted.data, 0, needed, false);
            if let Ok(data) = s3.result {
                let layout = Layout { indirect: rooted.indirect, data };
                lemma_fill_goes_on(s3.volume, old_layout.data, data, offset, src, 0, needed);
                let s4 = fill_from(s3.volume, old_layout.data, data, offset, src, 0, needed);
                if s4.result is Ok {
                    let dirty = indirect_gap(old_layout.data, needed);
                    let s5 = write_indirect_step(s4.volume, layout, dirty);
                    if s5.result is Ok {
                        lemma_store_goes_on(
                            s5.volume,
                            node,
                            published(record, layout, size),
                        );
                    }
                }
            }
        }
    }
}

/// Changing the length of a file goes on once it has begun.
proof fn lemma_resize_goes_on(v: Volume, node: NodeId, record: Seq<u8>, len: int)
    requires
        v.health == MountHealth::Writable,
        valid_node(node),
    ensures
        goes_on(v, grow_step(v, node, record, len)),
        goes_on(v, shrink_step(v, node, record, len)),
{
    reveal(grow_step);
    reveal(shrink_step);
    let needed = blocks_for(len);
    let s1 = layout_step(v, record);
    if let Ok(old_layout) = s1.result {
        lemma_accounts_go_on(s1.volume, 0, 12);
        let s2 = ensure_indirect_step(s1.volume, old_layout, needed);
        if let Ok(rooted) = s2.result {
            lemma_claim_missing_goes_on(s2.volume, rooted.data, 0, needed, true);
            let s3 = claim_missing(s2.volume, rooted.data, 0, needed, true);
            if let Ok(data) = s3.result {
                let layout = Layout { indirect: rooted.indirect, data };
                let dirty = indirect_gap(old_layout.data, needed);
                let s4 = write_indirect_step(s3.volume, layout, dirty);
                if s4.result is Ok {
                    lemma_store_goes_on(
                        s4.volume,
                        node,
                        published(record, layout, len),
                    );
                }
            }
        }
        let kept = trimmed(old_layout, needed);
        let image = published(record, kept, len);
        lemma_store_goes_on(s1.volume, node, image);
        let t2 = store_step(s1.volume, node, image);
        if t2.result is Ok {
            let t3 = write_indirect_step(t2.volume, kept, kept.indirect != 0);
            if t3.result is Ok {
                let to = blocks_for(metadata_of(record)->Ok_0.len as int);
                lemma_release_all_goes_on(t3.volume, old_layout.data, needed, to);
                let t4 = release_all(t3.volume, old_layout.data, needed, to);
                if t4.result is Ok {
                    lemma_accounts_go_on(t4.volume, old_layout.indirect, 12);
                }
            }
        }
    }
}

/// A write or a change of length that is refused has changed nothing.
pub proof fn law_a_refused_write_changes_nothing(
    v: Volume,
    node: NodeId,
    offset: u64,
    src: Seq<u8>,
    len: u64,
)
    ensures
        refused_cleanly(v, write_at_step(v, node, offset, src)),
        refused_cleanly(v, truncate_step(v, node, len)),
{
    let s = load_step(v, node);
    if s.result is Ok && v.writable() is Ok {
        let record = s.result->Ok_0;
        lemma_write_goes_on(s.volume, node, record, offset as int, src);
        lemma_resize_goes_on(s.volume, node, record, len as int);
    }
}

/// Undamaged records without the name are found to lack it.
pub(super) proof fn lemma_absent(block: Seq<u8>, offset: int, limit: int, name: Seq<u8>)
    requires
        entries_of(block, offset, limit) is Some,
        lacks(entries_of(block, offset, limit)->0, name),
    ensures
        absent(block, offset, limit, name) is Ok,
    decreases limit - offset,
{
    if offset < limit {
        let record = record_at(block, offset, limit)->Ok_0;
        let next = offset + record.length;
        let here = entries_of(block, offset, limit)->0;
        let rest = entries_of(block, next, limit)->0;
        if let Some(entry) = live(record)->Ok_0 {
            assert(here[0] == entry);
            assert forall|i: int| 0 <= i < rest.len() implies (#[trigger] rest[i]).name != Some(
                name,
            ) by {
                assert(here[i + 1] == rest[i]);
            }
        }
        lemma_absent(block, next, limit, name);
    }
}

/// A block of a directory lacks what the directory lacks.
pub(super) proof fn lemma_block_lacks(v: Volume, dir: NodeId, l: int, name: Seq<u8>)
    requires
        healthy_dir(v, dir),
        0 <= l < blocks_for(file_len(v, dir)),
        lacks(entries(v, dir), name),
    ensures
        ({
            let limit = block_limit(file_len(v, dir), l);
            let here = entries_of(directory_blocks(v, dir)[l], 0, limit);
            here is Some && lacks(here->0, name)
        }),
{
    let len = file_len(v, dir);
    let blocks = directory_blocks(v, dir);
    let limit = block_limit(len, l);
    assert(entries_of(blocks[l], 0, limit) is Some);
    let here = entries_of(blocks[l], 0, limit)->0;
    let first = gathered(blocks, len, l);
    lemma_gathered(blocks, len, blocks_for(len), l);
    assert forall|i: int| 0 <= i < here.len() implies (#[trigger] here[i]).name != Some(name) by {
        assert(gathered(blocks, len, l + 1)[first.len() + i] == here[i]);
        assert(entries(v, dir)[first.len() + i] == here[i]);
    }
}

/// Looking for room in a sound directory that lacks the name goes on.
proof fn lemma_insert_existing_goes_on(v: Volume, u: Volume, dir: NodeId, l: int, new: NewEntry)
    requires
        healthy_dir(v, dir),
        only_read(v, u),
        0 <= l <= blocks_for(file_len(v, dir)),
        lacks(entries(v, dir), new.name),
    ensures
        goes_on(v, insert_existing(u, file_record(v, dir), l, new)),
    decreases blocks_for(file_len(v, dir)) - l,
{
    let record = file_record(v, dir);
    let len = file_len(v, dir);
    if l < blocks_for(len) {
        lemma_load_directory_block(v, u, dir, l);
        lemma_block_lacks(v, dir, l, new.name);
        let number = file_layout(v, dir).data[l];
        let limit = block_limit(len, l);
        let found = resolve_dir_step(u, record, l);
        if found.result is Ok {
            let loaded = found.volume.read_for_update(number);
            if let Ok(block) = loaded.result {
                lemma_absent(block, 0, limit, new.name);
                if placed(block, 0, limit, new.node, new.file_type, new.name) is None {
                    lemma_insert_existing_goes_on(v, loaded.volume, dir, l + 1, new);
                }
            }
        }
    }
}

/// Giving a sound directory one more block goes on.
proof fn lemma_insert_fresh_goes_on(v: Volume, dir: NodeId, new: NewEntry)
    requires
        healthy_dir(v, dir),
        v.health == MountHealth::Writable,
    ensures
        goes_on(v, insert_fresh(v, dir, new)),
{
    reveal(insert_fresh);
    lemma_accounts_go_on(v, 0, 12);
    law_claim_takes_a_free_block(v);
    if let Ok(block) = claim_block_step(v).result {
        let v1 = claim_block_step(v).volume;
        lemma_blank_block();
        lemma_write(v1, block, blank_block());
        let s2 = v1.write_through(block, blank_block());
        if s2.result is Ok {
            let v2 = s2.volume;
            let t = table_block(v.geometry, dir);
            assert(v.geometry.structural(t) && !accounting(v, t as int));
            assert(v1.blocks[t as int] == v.blocks[t as int]);
            assert(file_record(v2, dir) == file_record(v, dir));
            let s3 = load_step(v2, dir);
            if let Ok(inode) = s3.result {
                if let Some(slot) = free_slot(inode, 0) {
                    lemma_store_goes_on(s3.volume, dir, grown(inode, slot, block));
                }
            }
        }
    }
}

/// Putting an entry into a sound directory that lacks its name goes on.
proof fn lemma_insert_goes_on(v: Volume, dir: NodeId, new: NewEntry)
    requires
        healthy_dir(v, dir),
        v.health == MountHealth::Writable,
        lacks(entries(v, dir), new.name),
        insertable(new.node, new.file_type, new.name),
        in_use(v, NodeId(new.node), kind_of(new.file_type)->0),
    ensures
        goes_on(v, insert_step(v, dir, new)),
{
    reveal(insert_step);
    let s = load_step(v, dir);
    if s.result is Ok {
        lemma_insert_existing_goes_on(v, s.volume, dir, 0, new);
        lemma_insert_existing(v, s.volume, dir, 0, new);
        let t = insert_existing(s.volume, file_record(v, dir), 0, new);
        if t.result == Ok::<bool, Ext2Error>(false) {
            lemma_reread(v, t.volume, dir);
            lemma_insert_fresh_goes_on(t.volume, dir, new);
        }
    }
}

/// Creating a file that is refused has changed nothing.
proof fn lemma_create_file_refused(v: Volume, parent: NodeId, name: Seq<u8>)
    requires
        healthy_dir(v, parent),
        name_check(name) is Ok,
        !dot_name(name),
    ensures
        refused_cleanly(v, create_file_step(v, parent, name)),
{
    reveal(require_absent_step);
    law_reading_changes_nothing(load_step(v, parent).volume, parent, name, 0, Seq::empty());
    let s1 = require_absent_step(v, parent, name);
    assert(only_read(v, s1.volume));
    if v.writable() is Ok && s1.result is Ok {
        lemma_require_absent(v, parent, name);
        let v1 = s1.volume;
        lemma_reread(v, v1, parent);
        lemma_accounts_go_on(v1, 0, 12);
        lemma_claim_inode(v1, parent);
        if let Ok(number) = claim_inode_step(v1).result {
            let node = NodeId(number);
            let v2 = claim_inode_step(v1).volume;
            lemma_new_file_record();
            lemma_store_goes_on(v2, node, new_file_record());
            lemma_store(v2, node, new_file_record());
            let s3 = store_step(v2, node, new_file_record());
            if s3.result is Ok {
                let v3 = s3.volume;
                let t = table_block(v.geometry, node);
                let m = v.geometry.inode_bitmap;
                assert(v.geometry.structural(m) && t != m);
                assert(bitmap_of(v3) == bitmap_of(v1));
                assert forall|other: NodeId|
                    valid_node(other) && other != node implies #[trigger] node_kept(
                    v1,
                    v3,
                    other,
                ) by {
                    assert(node_kept(v1, v2, other));
                }
                lemma_kept_by(v1, v3, parent, node);
                let new = NewEntry { node: number, file_type: type_of(NodeKind::Regular), name };
                lemma_insert_goes_on(v3, parent, new);
            }
        }
    }
}

/// Founding a directory goes on.
proof fn lemma_found_directory_goes_on(v: Volume, parent: NodeId, number: u32, block: u32)
    requires
        healthy_dir(v, parent),
        v.health == MountHealth::Writable,
        valid_node(NodeId(number)),
        NodeId(number) != parent,
        block < PROFILE_BLOCKS,
        !v.geometry.structural(block),
    ensures
        goes_on(v, found_directory_step(v, parent, number, block)),
{
    reveal(found_directory_step);
    let node = NodeId(number);
    let record = new_directory_record(block);
    lemma_new_directory_record(block);
    lemma_store_goes_on(v, node, record);
    lemma_store(v, node, record);
    let s1 = store_step(v, node, record);
    if s1.result is Ok {
        let content = new_directory_block(number, parent.0);
        lemma_new_directory_block(number, parent.0);
        lemma_write(s1.volume, block, content);
        let s2 = s1.volume.write_through(block, content);
        if s2.result is Ok {
            lemma_used_dirs(s2.volume, true);
            let s3 = used_dirs_step(s2.volume, true);
            if s3.result is Ok {
                let t = table_block(v.geometry, parent);
                assert(v.geometry.structural(t) && t >= 2);
                assert(file_record(s1.volume, parent) == file_record(v, parent));
                assert(file_record(s3.volume, parent) == file_record(v, parent));
                lemma_parent_links_go_on(s3.volume, parent, true);
            }
        }
    }
}

/// Changing the number of links to a directory goes on.
proof fn lemma_parent_links_go_on(v: Volume, dir: NodeId, increment: bool)
    requires
        v.health == MountHealth::Writable,
        valid_node(dir),
        supported(file_record(v, dir)),
        metadata_of(file_record(v, dir))->Ok_0.kind == NodeKind::Directory,
    ensures
        goes_on(v, parent_links_step(v, dir, increment)),
{
    let s = load_step(v, dir);
    if let Ok(record) = s.result {
        let links = le16(record, INODE_LINKS as int) + if increment {
            1int
        } else {
            -1
        };
        lemma_store_goes_on(
            s.volume,
            dir,
            splice(record, INODE_LINKS as int, to_le16(links as u16)),
        );
    }
}

/// Creating a directory that is refused has changed nothing.
#[verifier::rlimit(30)]
proof fn lemma_create_dir_refused(v: Volume, parent: NodeId, name: Seq<u8>)
    requires
        healthy_dir(v, parent),
        name_check(name) is Ok,
        !dot_name(name),
    ensures
        refused_cleanly(v, create_dir_step(v, parent, name)),
{
    reveal(require_absent_step);
    law_reading_changes_nothing(load_step(v, parent).volume, parent, name, 0, Seq::empty());
    let s1 = require_absent_step(v, parent, name);
    assert(only_read(v, s1.volume));
    if v.writable() is Ok && s1.result is Ok {
        lemma_require_absent(v, parent, name);
        let v1 = s1.volume;
        lemma_reread(v, v1, parent);
        lemma_accounts_go_on(v1, 0, 12);
        lemma_claim_inode(v1, parent);
        if let Ok(number) = claim_inode_step(v1).result {
            let node = NodeId(number);
            let v2 = claim_inode_step(v1).volume;
            lemma_accounts_go_on(v2, 0, 12);
            law_claim_takes_a_free_block(v2);
            lemma_claim_marks(v2);
            if let Ok(block) = claim_block_step(v2).result {
                let v3 = claim_block_step(v2).volume;
                let m = v.geometry.inode_bitmap;
                assert(v.geometry.structural(m) && !accounting(v, m as int));
                assert(v3.blocks[m as int] == v2.blocks[m as int]);
                assert forall|other: NodeId|
                    valid_node(other) && other != node implies #[trigger] node_kept(
                    v1,
                    v3,
                    other,
                ) by {
                    assert(node_kept(v1, v2, other));
                    let o = table_block(v.geometry, other);
                    assert(v.geometry.structural(o) && !accounting(v, o as int));
                    assert(v3.blocks[o as int] == v2.blocks[o as int]);
                }
                assert forall|b: u32| #[trigger] ownable(v1, b) implies v3.blocks[b as int]
                    == v1.blocks[b as int] by {
                    assert(!accounting(v, b as int));
                    assert(v3.blocks[b as int] == v2.blocks[b as int]);
                }
                lemma_kept_by(v1, v3, parent, node);
                assert(!owns(file_layout(v3, parent), block as int)) by {
                    if owns(file_layout(v, parent), block as int) {
                        lemma_owned(v, file_layout(v, parent), block as int);
                    }
                }
                assert(node != parent);
                assert forall|i: int| 0 <= i < entries(v3, parent).len() implies (
                #[trigger] entries(v3, parent)[i]).node.0 != number by {
                    assert(in_use(v, entries(v, parent)[i].node, entries(v, parent)[i].kind));
                }
                lemma_found_directory_goes_on(v3, parent, number, block);
                let s4 = found_directory_step(v3, parent, number, block);
                if s4.result is Ok {
                    lemma_found_directory(v3, parent, number, block);
                    let new = NewEntry {
                        node: number,
                        file_type: type_of(NodeKind::Directory),
                        name,
                    };
                    lemma_insert_goes_on(s4.volume, parent, new);
                }
            }
        }
    }
}

/// Creating a file or a directory that is refused has changed nothing.
pub proof fn law_a_refused_creation_changes_nothing(v: Volume, parent: NodeId, name: Seq<u8>)
    requires
        healthy_dir(v, parent),
        name_check(name) is Ok,
        !dot_name(name),
    ensures
        refused_cleanly(v, create_file_step(v, parent, name)),
        refused_cleanly(v, create_dir_step(v, parent, name)),
{
    lemma_create_file_refused(v, parent, name);
    lemma_create_dir_refused(v, parent, name);
}

/// Taking an entry out of a sound directory is refused before anything is changed.
proof fn lemma_remove_from_refused(v: Volume, u: Volume, dir: NodeId, l: int, name: Seq<u8>)
    requires
        healthy_dir(v, dir),
        only_read(v, u),
        0 <= l <= blocks_for(file_len(v, dir)),
    ensures
        refused_cleanly(v, remove_from(u, dir, file_record(v, dir), l, name)),
        remove_from(u, dir, file_record(v, dir), l, name).result is Ok ==> remove_from(
            u,
            dir,
            file_record(v, dir),
            l,
            name,
        ).volume.health == v.health,
    decreases blocks_for(file_len(v, dir)) - l,
{
    let record = file_record(v, dir);
    let len = file_len(v, dir);
    if l < blocks_for(len) {
        lemma_load_directory_block(v, u, dir, l);
        let number = file_layout(v, dir).data[l];
        let limit = block_limit(len, l);
        let found = resolve_dir_step(u, record, l);
        if found.result is Ok {
            let loaded = found.volume.read_for_update(number);
            if let Ok(block) = loaded.result {
                assert(block == directory_blocks(v, dir)[l]);
                law_an_entry_is_taken_out_of_its_block(block, limit, name);
                match without(block, None, 0, limit, name) {
                    Err(_) => {},
                    Ok(None) => lemma_remove_from_refused(v, loaded.volume, dir, l + 1, name),
                    Ok(Some((node, after))) => {
                        lemma_write(loaded.volume, number, after);
                        let s = loaded.volume.write_through(number, after);
                        if s.result is Ok {
                            assert(v.geometry.structural(table_block(v.geometry, dir)));
                            assert(file_record(s.volume, dir) == record);
                            let again = load_step(s.volume, dir);
                            if again.result is Ok {
                                lemma_store_goes_on(again.volume, dir, record);
                            }
                        }
                    },
                }
            }
        }
    }
}

/// Discarding a node goes on.
proof fn lemma_discard_goes_on(v: Volume, node: NodeId, record: Seq<u8>)
    requires
        v.health == MountHealth::Writable,
        valid_node(node),
    ensures
        goes_on(v, discard_step(v, node, record)),
{
    reveal(discard_step);
    let s1 = layout_step(v, record);
    if let Ok(layout) = s1.result {
        lemma_store_goes_on(s1.volume, node, cleared(record));
        let s2 = store_step(s1.volume, node, cleared(record));
        if s2.result is Ok {
            lemma_release_all_goes_on(s2.volume, layout.data, 0, TABLE_LEN as int);
            let s3 = release_all(s2.volume, layout.data, 0, TABLE_LEN as int);
            if s3.result is Ok {
                lemma_accounts_go_on(s3.volume, layout.indirect, 12);
                let s4 = release_indirect_step(s3.volume, layout.indirect);
                if s4.result is Ok {
                    reveal(release_inode_step);
                    reveal(mark_step);
                    reveal(adjust_counts_step);
                }
            }
        }
    }
}

/// Taking an entry out of a directory that is refused has changed nothing, and goes on otherwise.
proof fn lemma_detach_refused(v: Volume, dir: NodeId, name: Seq<u8>, child: NodeId)
    requires
        healthy_dir(v, dir),
    ensures
        refused_cleanly(v, detach_step(v, dir, name, child)),
        detach_step(v, dir, name, child).result is Ok ==> detach_step(
            v,
            dir,
            name,
            child,
        ).volume.health == v.health,
{
    reveal(remove_step);
    let s = load_step(v, dir);
    if s.result is Ok {
        lemma_remove_from_refused(v, s.volume, dir, 0, name);
    }
}

/// Removing a file or a directory that is refused has changed nothing.
pub proof fn law_a_refused_removal_changes_nothing(v: Volume, parent: NodeId, name: Seq<u8>)
    requires
        healthy_dir(v, parent),
    ensures
        refused_cleanly(v, unlink_file_step(v, parent, name)),
        refused_cleanly(v, remove_dir_step(v, parent, name)),
{
    law_lookup_gives_the_entry(v, parent, name);
    lemma_find(entries(v, parent), name);
    let found = lookup_step(v, parent, name);
    if v.writable() is Ok && found.result is Ok {
        let v1 = found.volume;
        let child = found.result->Ok_0;
        lemma_reread(v, v1, parent);
        let loaded = load_step(v1, child);
        if let Ok(record) = loaded.result {
            let v2 = loaded.volume;
            lemma_reread(v, v2, parent);
            lemma_detach_refused(v2, parent, name, child);
            let s = detach_step(v2, parent, name, child);
            if s.result is Ok {
                lemma_discard_goes_on(s.volume, child, record);
            }
        }
        reveal(require_empty_step);
        reveal(drop_directory_step);
        law_reading_changes_nothing(loaded.volume, child, name, 0, Seq::empty());
        let emptied = require_empty_step(v1, child);
        assert(only_read(v, emptied.volume));
        if let Ok(record) = emptied.result {
            let v2 = emptied.volume;
            if child == parent {
                lemma_reread(v, loaded.volume, parent);
                law_lookup_gives_the_entry(loaded.volume, parent, name);
                lemma_named(entries(v, parent), name);
            }
            lemma_reread(v, v2, parent);
            lemma_detach_refused(v2, parent, name, child);
            lemma_remove(v2, parent, name);
            let s = detach_step(v2, parent, name, child);
            if s.result is Ok {
                let v3 = s.volume;
                lemma_discard_goes_on(v3, child, record);
                let t = discard_step(v3, child, record);
                if t.result is Ok {
                    assert(record.len() == INODE_BYTES);
                    lemma_discard(v3, child, record);
                    lemma_used_dirs(t.volume, false);
                    let u = used_dirs_step(t.volume, false);
                    if u.result is Ok {
                        let b = table_block(v.geometry, parent);
                        assert(v.geometry.structural(b) && b >= 2);
                        assert(node_kept(v2, v3, parent));
                        assert(node_kept(v3, t.volume, parent));
                        assert(file_record(u.volume, parent) == file_record(v, parent));
                        lemma_parent_links_go_on(u.volume, parent, false);
                    }
                }
            }
        }
    }
}

} // verus!
