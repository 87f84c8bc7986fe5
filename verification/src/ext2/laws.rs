//! What holds of the file system as a whole: what reading keeps, what a refused change keeps,
//! what a failure leads to, and what mounting and unmounting leave.
use vstd::prelude::*;

use crate::block::{DeviceOp, Disk};
use crate::bytes::{le16, lemma_le16_written, splice, to_le16, zeros};
use crate::fs::{NodeId, NodeKind};

use super::allocator::{
    adjust_counts_step, block_counter, claim_block_step, claim_inode_step, counted,
    first_free_block, first_free_inode, inode_counter, mark_step, release_block_step,
    release_inode_step, with_mark, Counter, RESERVED_INODES, SUPERBLOCK_BASE,
};
use super::directory::{
    block_limit, blocks_for, encoded, free_slot, insert_existing, insert_fresh, insert_step, live,
    lookup_step, only_read, placed, read_dir_step, record_at, remove_from, remove_step,
    resolve_dir_step, scan_block, scan_blocks, type_of, without, Entry, NewEntry,
};
use super::inode::{
    lesser, load_block_step, load_step, metadata_of, metadata_step, read_at_step, read_from,
    record_start, store_step, table_block, DIRECT_BLOCKS,
};
use super::mutation::{
    claim_missing, cleared, create_dir_step, create_file_step, detach_step, discard_step,
    drop_directory_step, ensure_indirect_step, fill_from, fill_step, found_directory_step, greater,
    grow_step, indirect_bytes, indirect_gap, layout_step, new_directory_block, new_directory_record,
    new_file_record, overlaid, parent_links_step, published, release_all, release_indirect_step,
    remove_dir_step, require_absent_step, require_empty_step, shrink_step, trimmed, truncate_step,
    unlink_file_step, used_dirs_step, write_at_step, write_indirect_step, write_step, Layout,
    TABLE_LEN,
};
use super::on_disk::{
    BLOCK_BYTES, DIRECTORY_RECORD_LENGTH, GROUP_DESCRIPTOR_USED_DIRS, INODE_LINKS, SUPERBLOCK_STATE,
};
use super::validate::profile;
use super::volume::{Step, Volume};
use super::{
    mount_step, sync_step, unmount_step, unread_geometry, volume_on, with_state, Ext2Error,
    MountHealth, MountMode, PROFILE_BLOCKS, PROFILE_SECTORS, SECTOR_BYTES, STATE_CLEAN, STATE_DIRTY,
};

verus! {

/// A file system that takes no changes refuses each of them with the same error, and stays as it
/// is: `ReadOnly` where it was mounted so, else `WriteDisabled`.
pub proof fn law_no_change_without_write_access(
    v: Volume,
    node: NodeId,
    name: Seq<u8>,
    offset: u64,
    src: Seq<u8>,
    len: u64,
)
    requires
        v.health != MountHealth::Writable,
    ensures
        ({
            let error = if v.health == MountHealth::ReadOnly {
                Ext2Error::ReadOnly
            } else {
                Ext2Error::WriteDisabled
            };
            &&& create_file_step(v, node, name) == v.fail::<NodeId>(error)
            &&& create_dir_step(v, node, name) == v.fail::<NodeId>(error)
            &&& write_at_step(v, node, offset, src) == v.fail::<()>(error)
            &&& truncate_step(v, node, len) == v.fail::<()>(error)
            &&& unlink_file_step(v, node, name) == v.fail::<()>(error)
            &&& remove_dir_step(v, node, name) == v.fail::<()>(error)
            &&& sync_step(v) == v.fail::<()>(error)
            &&& unmount_step(v) == v.fail::<()>(error)
        }),
{
}

pub(super) proof fn lemma_scan_block_reads(
    v: Volume,
    block: Seq<u8>,
    offset: int,
    limit: int,
    seen: Seq<Entry>,
)
    ensures
        only_read(v, scan_block(v, block, offset, limit, seen).volume),
    decreases limit - offset,
{
    if offset < limit {
        if let Ok(record) = record_at(block, offset, limit) {
            if record.length > 0 {
                match live(record) {
                    Err(_) => {},
                    Ok(None) => lemma_scan_block_reads(v, block, offset + record.length, limit, seen),
                    Ok(Some(entry)) => {
                        let child = load_step(v, entry.node);
                        lemma_scan_block_reads(
                            child.volume,
                            block,
                            offset + record.length,
                            limit,
                            seen.push(entry),
                        );
                    },
                }
            }
        }
    }
}

pub(super) proof fn lemma_scan_blocks_reads(v: Volume, inode: Seq<u8>, logical: int, seen: Seq<Entry>)
    ensures
        only_read(v, scan_blocks(v, inode, logical, seen).volume),
    decreases blocks_for(metadata_of(inode)->Ok_0.len as int) - logical,
{
    let len = metadata_of(inode)->Ok_0.len as int;
    if logical < blocks_for(len) {
        let loaded = load_block_step(v, inode, logical);
        if let Ok(block) = loaded.result {
            let limit = block_limit(len, logical);
            lemma_scan_block_reads(loaded.volume, block, 0, limit, seen);
            let scanned = scan_block(loaded.volume, block, 0, limit, seen);
            if let Ok(seen) = scanned.result {
                lemma_scan_blocks_reads(scanned.volume, inode, logical + 1, seen);
            }
        }
    }
}

proof fn lemma_read_from_reads(
    v: Volume,
    record: Seq<u8>,
    offset: int,
    copied: int,
    length: int,
    dst: Seq<u8>,
)
    ensures
        only_read(v, read_from(v, record, offset, copied, length, dst).0.volume),
    decreases length - copied,
{
    if copied < length {
        let position = offset + copied;
        let within = position % (BLOCK_BYTES as int);
        let count = lesser(length - copied, BLOCK_BYTES - within);
        let s = load_block_step(v, record, position / (BLOCK_BYTES as int));
        if let Ok(data) = s.result {
            if count > 0 {
                lemma_read_from_reads(
                    s.volume,
                    record,
                    offset,
                    copied + count,
                    length,
                    splice(dst, copied, data.subrange(within, within + count)),
                );
            }
        }
    }
}

/// Reading changes nothing: the blocks, the health and the requests that changed the device stay
/// as they are.
pub proof fn law_reading_changes_nothing(
    v: Volume,
    node: NodeId,
    name: Seq<u8>,
    offset: u64,
    dst: Seq<u8>,
)
    ensures
        only_read(v, metadata_step(v, node).volume),
        only_read(v, lookup_step(v, node, name).volume),
        only_read(v, read_dir_step(v, node).volume),
        only_read(v, read_at_step(v, node, offset, dst).0.volume),
{
    let s = load_step(v, node);
    if let Ok(record) = s.result {
        lemma_scan_blocks_reads(s.volume, record, 0, Seq::empty());
        let length = lesser(
            metadata_of(record)->Ok_0.len - offset,
            dst.len() as int,
        );
        lemma_read_from_reads(s.volume, record, offset as int, 0, length, dst);
    }
}

/// A step keeps the history of the device and its own promise: what was done stays done, and
/// writing is disabled only together with an error.
pub open spec fn honest<T>(v: Volume, s: Step<T>) -> bool {
    &&& s.volume.geometry == v.geometry
    &&& s.volume.answers == v.answers
    &&& s.volume.clock >= v.clock
    &&& v.log.is_prefix_of(s.volume.log)
    &&& s.volume.health == v.health || s.volume.health == MountHealth::WriteFailed && s.result is Err
}

/// Two honest steps in a row are one.
proof fn lemma_honest_both<T, U>(v: Volume, s: Step<T>, t: Step<U>)
    requires
        honest(v, s),
        s.result is Ok,
        honest(s.volume, t),
    ensures
        honest(v, t),
{
    assert(v.log.is_prefix_of(t.volume.log)) by {
        assert(v.log =~= t.volume.log.subrange(0, v.log.len() as int));
    }
}

proof fn lemma_primitives_honest(v: Volume, b: u32, bytes: Seq<u8>)
    ensures
        honest(v, v.read(b)),
        honest(v, v.read_for_update(b)),
        honest(v, v.write(b, bytes)),
        honest(v, v.flush()),
        honest(v, v.write_through(b, bytes)),
{
    let w = v.write(b, bytes);
    assert(v.log =~= v.log.push(DeviceOp::Flush).subrange(0, v.log.len() as int));
    if w.result is Ok {
        assert(v.log =~= w.volume.log.subrange(0, v.log.len() as int));
        assert(w.volume.log =~= w.volume.log.push(DeviceOp::Flush).subrange(
            0,
            w.volume.log.len() as int,
        ));
        lemma_honest_both(v, w, w.volume.flush());
    }
}

proof fn lemma_adjust_honest(v: Volume, counter: Counter, decrement: bool)
    ensures
        honest(v, adjust_counts_step(v, counter, decrement)),
{
    reveal(adjust_counts_step);
    lemma_primitives_honest(v, 0, Seq::empty());
    let s = v.read_for_update(0);
    if let Ok(superblock) = s.result {
        lemma_primitives_honest(s.volume, 1, Seq::empty());
        let g = s.volume.read_for_update(1);
        lemma_honest_both(v, s, g);
        if let Ok(group) = g.result {
            if let Some((a, b)) = counted(superblock, group, counter, decrement) {
                lemma_primitives_honest(g.volume, 0, a);
                let x = g.volume.write(0, a);
                lemma_honest_both(v, g, x);
                if x.result is Ok {
                    lemma_primitives_honest(x.volume, 1, b);
                    lemma_honest_both(v, x, x.volume.write(1, b));
                }
            }
        }
    }
}

proof fn lemma_mark_honest(v: Volume, b: u32, bitmap: Seq<u8>, counter: Counter, decrement: bool)
    ensures
        honest(v, mark_step(v, b, bitmap, counter, decrement)),
{
    reveal(mark_step);
    lemma_primitives_honest(v, b, bitmap);
    let s = v.write(b, bitmap);
    if s.result is Ok {
        lemma_adjust_honest(s.volume, counter, decrement);
        let t = adjust_counts_step(s.volume, counter, decrement);
        lemma_honest_both(v, s, t);
        if t.result is Ok {
            lemma_primitives_honest(t.volume, b, bitmap);
            lemma_honest_both(v, t, t.volume.flush());
        }
    }
}

proof fn lemma_accounting_honest(v: Volume, b: u32, n: u32)
    ensures
        honest(v, claim_block_step(v)),
        honest(v, release_block_step(v, b)),
        honest(v, claim_inode_step(v)),
        honest(v, release_inode_step(v, n)),
{
    reveal(claim_block_step);
    reveal(release_block_step);
    reveal(claim_inode_step);
    reveal(release_inode_step);
    let g = v.geometry;
    lemma_primitives_honest(v, g.block_bitmap, Seq::empty());
    lemma_primitives_honest(v, g.inode_bitmap, Seq::empty());
    let s = v.read_for_update(g.block_bitmap);
    if let Ok(bitmap) = s.result {
        if let Some(c) = first_free_block(bitmap, g, 0) {
            let changed = with_mark(bitmap, c as int, true);
            let counter = block_counter();
            lemma_mark_honest(s.volume, g.block_bitmap, changed, counter, true);
            lemma_honest_both(v, s, mark_step(s.volume, g.block_bitmap, changed, counter, true));
        }
        let changed = with_mark(bitmap, b as int, false);
        let counter = block_counter();
        lemma_mark_honest(s.volume, g.block_bitmap, changed, counter, false);
        lemma_honest_both(v, s, mark_step(s.volume, g.block_bitmap, changed, counter, false));
    }
    let s = v.read_for_update(g.inode_bitmap);
    if let Ok(bitmap) = s.result {
        if let Some(c) = first_free_inode(
            bitmap,
            RESERVED_INODES + 1,
        ) {
            let changed = with_mark(bitmap, c - 1, true);
            let counter = inode_counter();
            lemma_mark_honest(s.volume, g.inode_bitmap, changed, counter, true);
            lemma_honest_both(v, s, mark_step(s.volume, g.inode_bitmap, changed, counter, true));
        }
        let changed = with_mark(bitmap, n - 1, false);
        let counter = inode_counter();
        lemma_mark_honest(s.volume, g.inode_bitmap, changed, counter, false);
        lemma_honest_both(v, s, mark_step(s.volume, g.inode_bitmap, changed, counter, false));
    }
}

proof fn lemma_inode_honest(v: Volume, node: NodeId, record: Seq<u8>)
    ensures
        honest(v, load_step(v, node)),
        honest(v, store_step(v, node, record)),
{
    reveal(store_step);
    let t = table_block(v.geometry, node);
    lemma_primitives_honest(v, t, Seq::empty());
    let s = v.read_for_update(t);
    if let Ok(table) = s.result {
        let changed = splice(table, record_start(node), record);
        lemma_primitives_honest(s.volume, t, changed);
        lemma_honest_both(v, s, s.volume.write_through(t, changed));
    }
}

/// A step that only reads is honest.
proof fn lemma_only_read_honest<T>(v: Volume, s: Step<T>)
    requires
        only_read(v, s.volume),
    ensures
        honest(v, s),
{
    assert(v.log =~= v.log.subrange(0, v.log.len() as int));
}

proof fn lemma_lookup_honest(v: Volume, node: NodeId, name: Seq<u8>)
    ensures
        honest(v, lookup_step(v, node, name)),
        honest(v, read_dir_step(v, node)),
{
    law_reading_changes_nothing(v, node, name, 0, Seq::empty());
    lemma_only_read_honest(v, lookup_step(v, node, name));
    lemma_only_read_honest(v, read_dir_step(v, node));
}

proof fn lemma_insert_existing_honest(v: Volume, inode: Seq<u8>, logical: int, new: NewEntry)
    ensures
        honest(v, insert_existing(v, inode, logical, new)),
    decreases blocks_for(metadata_of(inode)->Ok_0.len as int) - logical,
{
    let len = metadata_of(inode)->Ok_0.len as int;
    lemma_only_read_honest(v, v.done(false));
    if logical < blocks_for(len) {
        let found = resolve_dir_step(v, inode, logical);
        lemma_only_read_honest(v, found);
        if let Ok(number) = found.result {
            lemma_primitives_honest(found.volume, number, Seq::empty());
            let loaded = found.volume.read_for_update(number);
            lemma_honest_both(v, found, loaded);
            if let Ok(block) = loaded.result {
                let limit = block_limit(len, logical);
                match placed(block, 0, limit, new.node, new.file_type, new.name) {
                    Some(changed) => {
                        lemma_primitives_honest(loaded.volume, number, changed);
                        lemma_honest_both(v, loaded, loaded.volume.write_through(number, changed));
                    },
                    None => {
                        lemma_insert_existing_honest(loaded.volume, inode, logical + 1, new);
                        lemma_honest_both(
                            v,
                            loaded,
                            insert_existing(loaded.volume, inode, logical + 1, new),
                        );
                    },
                }
            }
        }
    }
}

proof fn lemma_insert_honest(v: Volume, parent: NodeId, new: NewEntry)
    ensures
        honest(v, insert_step(v, parent, new)),
{
    reveal(insert_step);
    lemma_only_read_honest(v, v.done(()));
    lemma_inode_honest(v, parent, Seq::empty());
    let s = load_step(v, parent);
    if let Ok(inode) = s.result {
        lemma_insert_existing_honest(s.volume, inode, 0, new);
        let t = insert_existing(s.volume, inode, 0, new);
        lemma_honest_both(v, s, t);
        if t.result is Ok {
            lemma_insert_fresh_honest(t.volume, parent, new);
            lemma_honest_both(v, t, insert_fresh(t.volume, parent, new));
        }
    }
}

proof fn lemma_insert_fresh_honest(v: Volume, parent: NodeId, new: NewEntry)
    ensures
        honest(v, insert_fresh(v, parent, new)),
{
    reveal(insert_fresh);
    lemma_accounting_honest(v, 0, 0);
    let s = claim_block_step(v);
    if let Ok(block) = s.result {
        let empty = splice(
            zeros(BLOCK_BYTES as nat),
            DIRECTORY_RECORD_LENGTH as int,
            to_le16(4096),
        );
        lemma_primitives_honest(s.volume, block, empty);
        let t = s.volume.write_through(block, empty);
        lemma_honest_both(v, s, t);
        if t.result is Ok {
            lemma_inode_honest(t.volume, parent, Seq::empty());
            let u = load_step(t.volume, parent);
            lemma_honest_both(v, t, u);
            if let Ok(inode) = u.result {
                if let Some(slot) = free_slot(inode, 0) {
                    let grown = super::directory::grown(inode, slot, block);
                    lemma_inode_honest(u.volume, parent, grown);
                    let x = store_step(u.volume, parent, grown);
                    lemma_honest_both(v, u, x);
                    if x.result is Ok {
                        let filled = encoded(
                            new.node,
                            BLOCK_BYTES as int,
                            new.file_type,
                            new.name,
                        );
                        lemma_primitives_honest(x.volume, block, filled);
                        lemma_honest_both(v, x, x.volume.write_through(block, filled));
                    }
                }
            }
        }
    }
}

proof fn lemma_remove_from_honest(
    v: Volume,
    parent: NodeId,
    inode: Seq<u8>,
    logical: int,
    name: Seq<u8>,
)
    ensures
        honest(v, remove_from(v, parent, inode, logical, name)),
    decreases blocks_for(metadata_of(inode)->Ok_0.len as int) - logical,
{
    let len = metadata_of(inode)->Ok_0.len as int;
    lemma_only_read_honest(v, v.done(()));
    if logical < blocks_for(len) {
        let found = resolve_dir_step(v, inode, logical);
        lemma_only_read_honest(v, found);
        if let Ok(number) = found.result {
            lemma_primitives_honest(found.volume, number, Seq::empty());
            let loaded = found.volume.read_for_update(number);
            lemma_honest_both(v, found, loaded);
            if let Ok(block) = loaded.result {
                let limit = block_limit(len, logical);
                match without(block, None, 0, limit, name) {
                    Err(_) => {},
                    Ok(None) => {
                        lemma_remove_from_honest(loaded.volume, parent, inode, logical + 1, name);
                        lemma_honest_both(
                            v,
                            loaded,
                            remove_from(loaded.volume, parent, inode, logical + 1, name),
                        );
                    },
                    Ok(Some((node, changed))) => {
                        lemma_primitives_honest(loaded.volume, number, changed);
                        let t = loaded.volume.write_through(number, changed);
                        lemma_honest_both(v, loaded, t);
                        if t.result is Ok {
                            lemma_inode_honest(t.volume, parent, Seq::empty());
                            let u = load_step(t.volume, parent);
                            lemma_honest_both(v, t, u);
                            if let Ok(record) = u.result {
                                lemma_inode_honest(u.volume, parent, record);
                                lemma_honest_both(v, u, store_step(u.volume, parent, record));
                            }
                        }
                    },
                }
            }
        }
    }
}

proof fn lemma_detach_honest(v: Volume, parent: NodeId, name: Seq<u8>, child: NodeId)
    ensures
        honest(v, detach_step(v, parent, name, child)),
{
    reveal(remove_step);
    lemma_only_read_honest(v, v.done(()));
    lemma_inode_honest(v, parent, Seq::empty());
    let s = load_step(v, parent);
    if let Ok(inode) = s.result {
        lemma_remove_from_honest(s.volume, parent, inode, 0, name);
        lemma_honest_both(v, s, remove_from(s.volume, parent, inode, 0, name));
    }
}

proof fn lemma_layout_honest(v: Volume, record: Seq<u8>, layout: Layout, needed: int)
    ensures
        honest(v, layout_step(v, record)),
        honest(v, ensure_indirect_step(v, layout, needed)),
        honest(v, write_indirect_step(v, layout, true)),
        honest(v, write_indirect_step(v, layout, false)),
{
    lemma_only_read_honest(v, v.done(()));
    lemma_only_read_honest(v, layout_step(v, record));
    lemma_primitives_honest(v, layout.indirect, indirect_bytes(layout.data));
    lemma_accounting_honest(v, 0, 0);
    let s = claim_block_step(v);
    if let Ok(block) = s.result {
        let blank = zeros(BLOCK_BYTES as nat);
        lemma_primitives_honest(s.volume, block, blank);
        lemma_honest_both(v, s, s.volume.write_through(block, blank));
    }
}

proof fn lemma_claim_missing_honest(
    v: Volume,
    data: Seq<u32>,
    logical: int,
    needed: int,
    zeroed: bool,
)
    ensures
        honest(v, claim_missing(v, data, logical, needed, zeroed)),
    decreases needed - logical,
{
    lemma_only_read_honest(v, v.done(()));
    if logical < needed {
        if data[logical] != 0 {
            lemma_claim_missing_honest(v, data, logical + 1, needed, zeroed);
        } else {
            lemma_accounting_honest(v, 0, 0);
            let s = claim_block_step(v);
            if let Ok(block) = s.result {
                let blank = zeros(BLOCK_BYTES as nat);
                lemma_primitives_honest(s.volume, block, blank);
                let t = if zeroed {
                    s.volume.write_through(block, blank)
                } else {
                    s.volume.done(())
                };
                lemma_only_read_honest(s.volume, s.volume.done(()));
                lemma_honest_both(v, s, t);
                if t.result is Ok {
                    let next = data.update(logical, block);
                    lemma_claim_missing_honest(t.volume, next, logical + 1, needed, zeroed);
                    lemma_honest_both(
                        v,
                        t,
                        claim_missing(t.volume, next, logical + 1, needed, zeroed),
                    );
                }
            }
        }
    }
}

proof fn lemma_fill_honest(
    v: Volume,
    before: Seq<u32>,
    data: Seq<u32>,
    offset: int,
    src: Seq<u8>,
    logical: int,
    needed: int,
)
    ensures
        honest(v, fill_from(v, before, data, offset, src, logical, needed)),
    decreases needed - logical,
{
    lemma_only_read_honest(v, v.done(()));
    if logical < needed {
        let s = fill_step(v, before, data, offset, src, logical);
        let blank = zeros(BLOCK_BYTES as nat);
        let target = data[logical];
        let fresh = overlaid(blank, logical, offset, src);
        lemma_primitives_honest(v, target, blank);
        lemma_primitives_honest(v, target, fresh);
        let r = v.read(target);
        if let Ok(base) = r.result {
            let mixed = overlaid(base, logical, offset, src);
            lemma_primitives_honest(r.volume, target, mixed);
            lemma_honest_both(v, r, r.volume.write_through(target, mixed));
        }
        assert(honest(v, s));
        if s.result is Ok {
            lemma_fill_honest(s.volume, before, data, offset, src, logical + 1, needed);
            lemma_honest_both(
                v,
                s,
                fill_from(s.volume, before, data, offset, src, logical + 1, needed),
            );
        }
    }
}

proof fn lemma_release_all_honest(v: Volume, data: Seq<u32>, from: int, to: int)
    ensures
        honest(v, release_all(v, data, from, to)),
    decreases to - from,
{
    lemma_only_read_honest(v, v.done(()));
    if from < to {
        if data[from] == 0 {
            lemma_release_all_honest(v, data, from + 1, to);
        } else {
            lemma_accounting_honest(v, data[from], 0);
            let s = release_block_step(v, data[from]);
            if s.result is Ok {
                lemma_release_all_honest(s.volume, data, from + 1, to);
                lemma_honest_both(v, s, release_all(s.volume, data, from + 1, to));
            }
        }
    }
}

proof fn lemma_write_honest(v: Volume, node: NodeId, record: Seq<u8>, offset: int, src: Seq<u8>)
    ensures
        honest(v, write_step(v, node, record, offset, src)),
{
    reveal(write_step);
    let size = greater(
        metadata_of(record)->Ok_0.len as int,
        offset + src.len(),
    );
    let needed = blocks_for(size);
    let s1 = layout_step(v, record);
    lemma_layout_honest(v, record, Layout { indirect: 0, data: Seq::empty() }, needed);
    if let Ok(old_layout) = s1.result {
        lemma_layout_honest(s1.volume, record, old_layout, needed);
        let s2 = ensure_indirect_step(s1.volume, old_layout, needed);
        lemma_honest_both(v, s1, s2);
        if let Ok(rooted) = s2.result {
            lemma_claim_missing_honest(s2.volume, rooted.data, 0, needed, false);
            let s3 = claim_missing(s2.volume, rooted.data, 0, needed, false);
            lemma_honest_both(v, s2, s3);
            if let Ok(data) = s3.result {
                let layout = Layout { indirect: rooted.indirect, data };
                lemma_fill_honest(s3.volume, old_layout.data, data, offset, src, 0, needed);
                let s4 = fill_from(s3.volume, old_layout.data, data, offset, src, 0, needed);
                lemma_honest_both(v, s3, s4);
                if s4.result is Ok {
                    lemma_publish_honest(
                        s4.volume,
                        node,
                        record,
                        layout,
                        size,
                        indirect_gap(old_layout.data, needed),
                    );
                    lemma_honest_both(
                        v,
                        s4,
                        publish_step(
                            s4.volume,
                            node,
                            record,
                            layout,
                            size,
                            indirect_gap(old_layout.data, needed),
                        ),
                    );
                }
            }
        }
    }
}

/// Writes the indirect block and the record.
spec fn publish_step(
    v: Volume,
    node: NodeId,
    record: Seq<u8>,
    layout: Layout,
    size: int,
    dirty: bool,
) -> Step<()> {
    write_indirect_step(v, layout, dirty).and_then(
        |u: (), v: Volume|
            store_step(v, node, published(record, layout, size)),
    )
}

proof fn lemma_publish_honest(
    v: Volume,
    node: NodeId,
    record: Seq<u8>,
    layout: Layout,
    size: int,
    dirty: bool,
)
    ensures
        honest(v, publish_step(v, node, record, layout, size, dirty)),
{
    lemma_layout_honest(v, record, layout, 0);
    let s = write_indirect_step(v, layout, dirty);
    if s.result is Ok {
        let image = published(record, layout, size);
        lemma_inode_honest(s.volume, node, image);
        lemma_honest_both(v, s, store_step(s.volume, node, image));
    }
}

proof fn lemma_grow_honest(v: Volume, node: NodeId, record: Seq<u8>, len: int)
    ensures
        honest(v, grow_step(v, node, record, len)),
{
    reveal(grow_step);
    let needed = blocks_for(len);
    let s1 = layout_step(v, record);
    lemma_layout_honest(v, record, Layout { indirect: 0, data: Seq::empty() }, needed);
    if let Ok(old_layout) = s1.result {
        lemma_layout_honest(s1.volume, record, old_layout, needed);
        let s2 = ensure_indirect_step(s1.volume, old_layout, needed);
        lemma_honest_both(v, s1, s2);
        if let Ok(rooted) = s2.result {
            lemma_claim_missing_honest(s2.volume, rooted.data, 0, needed, true);
            let s3 = claim_missing(s2.volume, rooted.data, 0, needed, true);
            lemma_honest_both(v, s2, s3);
            if let Ok(data) = s3.result {
                let layout = Layout { indirect: rooted.indirect, data };
                let dirty = indirect_gap(old_layout.data, needed);
                lemma_publish_honest(s3.volume, node, record, layout, len, dirty);
                lemma_honest_both(
                    v,
                    s3,
                    publish_step(s3.volume, node, record, layout, len, dirty),
                );
            }
        }
    }
}

proof fn lemma_release_indirect_honest(v: Volume, indirect: u32)
    ensures
        honest(v, release_indirect_step(v, indirect)),
{
    lemma_only_read_honest(v, v.done(()));
    lemma_accounting_honest(v, indirect, 0);
}

proof fn lemma_shrink_honest(v: Volume, node: NodeId, record: Seq<u8>, len: int)
    ensures
        honest(v, shrink_step(v, node, record, len)),
{
    reveal(shrink_step);
    let keep = blocks_for(len);
    let blocks = blocks_for(metadata_of(record)->Ok_0.len as int);
    let s1 = layout_step(v, record);
    lemma_layout_honest(v, record, Layout { indirect: 0, data: Seq::empty() }, 0);
    if let Ok(layout) = s1.result {
        let kept = trimmed(layout, keep);
        let image = published(record, kept, len);
        lemma_inode_honest(s1.volume, node, image);
        let s2 = store_step(s1.volume, node, image);
        lemma_honest_both(v, s1, s2);
        if s2.result is Ok {
            lemma_layout_honest(s2.volume, record, kept, 0);
            let s3 = write_indirect_step(s2.volume, kept, kept.indirect != 0);
            lemma_honest_both(v, s2, s3);
            if s3.result is Ok {
                lemma_release_all_honest(s3.volume, layout.data, keep, blocks);
                let s4 = release_all(s3.volume, layout.data, keep, blocks);
                lemma_honest_both(v, s3, s4);
                if s4.result is Ok {
                    let gone = if keep <= DIRECT_BLOCKS {
                        layout.indirect
                    } else {
                        0
                    };
                    lemma_release_indirect_honest(s4.volume, gone);
                    lemma_honest_both(v, s4, release_indirect_step(s4.volume, gone));
                }
            }
        }
    }
}

proof fn lemma_discard_honest(v: Volume, node: NodeId, record: Seq<u8>)
    ensures
        honest(v, discard_step(v, node, record)),
{
    reveal(discard_step);
    let s1 = layout_step(v, record);
    lemma_layout_honest(v, record, Layout { indirect: 0, data: Seq::empty() }, 0);
    if let Ok(layout) = s1.result {
        let image = cleared(record);
        let all = TABLE_LEN as int;
        lemma_inode_honest(s1.volume, node, image);
        let s2 = store_step(s1.volume, node, image);
        lemma_honest_both(v, s1, s2);
        if s2.result is Ok {
            lemma_release_all_honest(s2.volume, layout.data, 0, all);
            let s3 = release_all(s2.volume, layout.data, 0, all);
            lemma_honest_both(v, s2, s3);
            if s3.result is Ok {
                lemma_release_indirect_honest(s3.volume, layout.indirect);
                let s4 = release_indirect_step(s3.volume, layout.indirect);
                lemma_honest_both(v, s3, s4);
                if s4.result is Ok {
                    lemma_accounting_honest(s4.volume, 0, node.0);
                    lemma_honest_both(v, s4, release_inode_step(s4.volume, node.0));
                }
            }
        }
    }
}

proof fn lemma_counts_honest(v: Volume, parent: NodeId, increment: bool)
    ensures
        honest(v, used_dirs_step(v, increment)),
        honest(v, parent_links_step(v, parent, increment)),
{
    lemma_only_read_honest(v, v.done(()));
    let step: int = if increment {
        1
    } else {
        -1
    };
    lemma_primitives_honest(v, 1, Seq::empty());
    let s = v.read_for_update(1);
    if let Ok(group) = s.result {
        let at = GROUP_DESCRIPTOR_USED_DIRS as int;
        let changed = splice(group, at, to_le16((le16(group, at) + step) as u16));
        lemma_primitives_honest(s.volume, 1, changed);
        lemma_honest_both(v, s, s.volume.write_through(1, changed));
    }
    lemma_inode_honest(v, parent, Seq::empty());
    let s = load_step(v, parent);
    if let Ok(record) = s.result {
        let at = INODE_LINKS as int;
        let changed = splice(record, at, to_le16((le16(record, at) + step) as u16));
        lemma_inode_honest(s.volume, parent, changed);
        lemma_honest_both(v, s, store_step(s.volume, parent, changed));
    }
}

proof fn lemma_require_absent_honest(v: Volume, parent: NodeId, name: Seq<u8>)
    ensures
        honest(v, require_absent_step(v, parent, name)),
{
    reveal(require_absent_step);
    lemma_inode_honest(v, parent, Seq::empty());
    let s = load_step(v, parent);
    if s.result is Ok {
        law_reading_changes_nothing(s.volume, parent, name, 0, Seq::empty());
    }
    lemma_only_read_honest(v, require_absent_step(v, parent, name));
}

proof fn lemma_create_file_honest(v: Volume, parent: NodeId, name: Seq<u8>)
    ensures
        honest(v, create_file_step(v, parent, name)),
{
    lemma_only_read_honest(v, v.done(()));
    lemma_require_absent_honest(v, parent, name);
    let s1 = require_absent_step(v, parent, name);
    if s1.result is Ok {
        lemma_accounting_honest(s1.volume, 0, 0);
        let s2 = claim_inode_step(s1.volume);
        lemma_honest_both(v, s1, s2);
        if let Ok(number) = s2.result {
            let fresh = new_file_record();
            lemma_inode_honest(s2.volume, NodeId(number), fresh);
            let s3 = store_step(s2.volume, NodeId(number), fresh);
            lemma_honest_both(v, s2, s3);
            if s3.result is Ok {
                let new = NewEntry {
                    node: number,
                    file_type: type_of(NodeKind::Regular),
                    name,
                };
                lemma_insert_honest(s3.volume, parent, new);
                lemma_honest_both(v, s3, insert_step(s3.volume, parent, new));
            }
        }
    }
}

proof fn lemma_found_directory_honest(v: Volume, parent: NodeId, number: u32, block: u32)
    ensures
        honest(v, found_directory_step(v, parent, number, block)),
{
    reveal(found_directory_step);
    let fresh = new_directory_record(block);
    lemma_inode_honest(v, NodeId(number), fresh);
    let s1 = store_step(v, NodeId(number), fresh);
    if s1.result is Ok {
        let content = new_directory_block(number, parent.0);
        lemma_primitives_honest(s1.volume, block, content);
        let s2 = s1.volume.write_through(block, content);
        lemma_honest_both(v, s1, s2);
        if s2.result is Ok {
            lemma_counts_honest(s2.volume, parent, true);
            let s3 = used_dirs_step(s2.volume, true);
            lemma_honest_both(v, s2, s3);
            if s3.result is Ok {
                lemma_counts_honest(s3.volume, parent, true);
                lemma_honest_both(v, s3, parent_links_step(s3.volume, parent, true));
            }
        }
    }
}

proof fn lemma_create_dir_honest(v: Volume, parent: NodeId, name: Seq<u8>)
    ensures
        honest(v, create_dir_step(v, parent, name)),
{
    lemma_only_read_honest(v, v.done(()));
    lemma_require_absent_honest(v, parent, name);
    let s1 = require_absent_step(v, parent, name);
    if s1.result is Ok {
        lemma_accounting_honest(s1.volume, 0, 0);
        let s2 = claim_inode_step(s1.volume);
        lemma_honest_both(v, s1, s2);
        if let Ok(number) = s2.result {
            lemma_accounting_honest(s2.volume, 0, 0);
            let s3 = claim_block_step(s2.volume);
            lemma_honest_both(v, s2, s3);
            if let Ok(block) = s3.result {
                lemma_found_directory_honest(s3.volume, parent, number, block);
                let s4 = found_directory_step(s3.volume, parent, number, block);
                lemma_honest_both(v, s3, s4);
                if s4.result is Ok {
                    let new = NewEntry {
                        node: number,
                        file_type: type_of(NodeKind::Directory),
                        name,
                    };
                    lemma_insert_honest(s4.volume, parent, new);
                    lemma_honest_both(v, s4, insert_step(s4.volume, parent, new));
                }
            }
        }
    }
}

proof fn lemma_unlink_honest(v: Volume, parent: NodeId, name: Seq<u8>)
    ensures
        honest(v, unlink_file_step(v, parent, name)),
{
    lemma_only_read_honest(v, v.done(()));
    lemma_lookup_honest(v, parent, name);
    let s1 = lookup_step(v, parent, name);
    if let Ok(child) = s1.result {
        lemma_inode_honest(s1.volume, child, Seq::empty());
        let s2 = load_step(s1.volume, child);
        lemma_honest_both(v, s1, s2);
        if let Ok(record) = s2.result {
            lemma_detach_honest(s2.volume, parent, name, child);
            let s3 = detach_step(s2.volume, parent, name, child);
            lemma_honest_both(v, s2, s3);
            if s3.result is Ok {
                lemma_discard_honest(s3.volume, child, record);
                lemma_honest_both(v, s3, discard_step(s3.volume, child, record));
            }
        }
    }
}

proof fn lemma_drop_directory_honest(
    v: Volume,
    parent: NodeId,
    name: Seq<u8>,
    child: NodeId,
    record: Seq<u8>,
)
    ensures
        honest(v, drop_directory_step(v, parent, name, child, record)),
{
    reveal(drop_directory_step);
    lemma_detach_honest(v, parent, name, child);
    let s1 = detach_step(v, parent, name, child);
    if s1.result is Ok {
        lemma_discard_honest(s1.volume, child, record);
        let s2 = discard_step(s1.volume, child, record);
        lemma_honest_both(v, s1, s2);
        if s2.result is Ok {
            lemma_counts_honest(s2.volume, parent, false);
            let s3 = used_dirs_step(s2.volume, false);
            lemma_honest_both(v, s2, s3);
            if s3.result is Ok {
                lemma_counts_honest(s3.volume, parent, false);
                lemma_honest_both(v, s3, parent_links_step(s3.volume, parent, false));
            }
        }
    }
}

proof fn lemma_remove_dir_honest(v: Volume, parent: NodeId, name: Seq<u8>)
    ensures
        honest(v, remove_dir_step(v, parent, name)),
{
    reveal(require_empty_step);
    lemma_only_read_honest(v, v.done(()));
    lemma_lookup_honest(v, parent, name);
    let s1 = lookup_step(v, parent, name);
    if let Ok(child) = s1.result {
        lemma_inode_honest(s1.volume, child, Seq::empty());
        let s2 = load_step(s1.volume, child);
        lemma_honest_both(v, s1, s2);
        if let Ok(record) = s2.result {
            lemma_lookup_honest(s2.volume, child, name);
            let s3 = read_dir_step(s2.volume, child);
            lemma_honest_both(v, s2, s3);
            if s3.result is Ok {
                lemma_drop_directory_honest(s3.volume, parent, name, child, record);
                lemma_honest_both(
                    v,
                    s3,
                    drop_directory_step(s3.volume, parent, name, child, record),
                );
            }
        }
    }
}

/// Every change is honest: what the device was asked to do stays in its history, in order, and
/// writing is disabled only together with an error. So a change that succeeds leaves the file
/// system writable.
pub proof fn law_changes_are_honest(
    v: Volume,
    node: NodeId,
    name: Seq<u8>,
    offset: u64,
    src: Seq<u8>,
    len: u64,
)
    ensures
        honest(v, create_file_step(v, node, name)),
        honest(v, create_dir_step(v, node, name)),
        honest(v, write_at_step(v, node, offset, src)),
        honest(v, truncate_step(v, node, len)),
        honest(v, unlink_file_step(v, node, name)),
        honest(v, remove_dir_step(v, node, name)),
        honest(v, sync_step(v)),
{
    lemma_only_read_honest(v, v.done(()));
    lemma_create_file_honest(v, node, name);
    lemma_create_dir_honest(v, node, name);
    lemma_unlink_honest(v, node, name);
    lemma_remove_dir_honest(v, node, name);
    lemma_primitives_honest(v, 0, Seq::empty());
    lemma_inode_honest(v, node, Seq::empty());
    let s = load_step(v, node);
    if let Ok(record) = s.result {
        lemma_only_read_honest(s.volume, s.volume.done(()));
        lemma_write_honest(s.volume, node, record, offset as int, src);
        lemma_honest_both(v, s, write_step(s.volume, node, record, offset as int, src));
        lemma_grow_honest(s.volume, node, record, len as int);
        lemma_honest_both(v, s, grow_step(s.volume, node, record, len as int));
        lemma_shrink_honest(s.volume, node, record, len as int);
        lemma_honest_both(v, s, shrink_step(s.volume, node, record, len as int));
    }
}

/// A write or a flush that the device fails disables writing, and is reported.
pub proof fn law_a_failed_write_disables_writing(v: Volume, block: u32, bytes: Seq<u8>)
    requires
        block < PROFILE_BLOCKS,
        v.answer() is Failed,
    ensures
        v.write(block, bytes).result == Err::<(), Ext2Error>(Ext2Error::Block(v.answer()->error)),
        v.write(block, bytes).volume.health == MountHealth::WriteFailed,
        v.flush().result == Err::<(), Ext2Error>(Ext2Error::Block(v.answer()->error)),
        v.flush().volume.health == MountHealth::WriteFailed,
{
}

/// The state that a superblock records.
pub open spec fn recorded_state(superblock: Seq<u8>) -> u16 {
    le16(superblock, SUPERBLOCK_BASE + SUPERBLOCK_STATE)
}

proof fn lemma_with_state(superblock: Seq<u8>, group: Seq<u8>, state: u16)
    requires
        superblock.len() == BLOCK_BYTES,
    ensures
        recorded_state(with_state(superblock, state)) == state,
        profile(with_state(superblock, state), group) == profile(superblock, group),
{
    lemma_le16_written(superblock, SUPERBLOCK_BASE + SUPERBLOCK_STATE, state);
}

/// A device with the blocks of a file system.
pub open spec fn holds(disk: Disk, v: Volume) -> bool {
    &&& disk.shape.logical_sector_size == SECTOR_BYTES
    &&& disk.shape.sector_count >= PROFILE_SECTORS
    &&& volume_on(disk, v.geometry, v.health).blocks == v.blocks
}

/// Mounting for reading asks the device for nothing but reads, and gives a file system that only
/// reads.
pub proof fn law_mount_for_reading_writes_nothing(disk: Disk)
    ensures
        mount_step(disk, MountMode::ReadOnly) matches Ok(v) ==> v.log == disk.log && v.health
            == MountHealth::ReadOnly && v.blocks == volume_on(disk, v.geometry, v.health).blocks,
{
}

/// Mounting for changes marks the file system as being changed. From then on a second mount for
/// changes is refused because the file system is not clean, unless the device fails first.
pub proof fn law_mount_for_changes_excludes_another(disk: Disk, later: Disk)
    requires
        disk.bytes.len() >= PROFILE_SECTORS * SECTOR_BYTES,
    ensures
        mount_step(disk, MountMode::ReadWrite) matches Ok(v) ==> {
            &&& v.health == MountHealth::Writable
            &&& recorded_state(v.blocks[0]) == STATE_DIRTY
            &&& holds(later, v) ==> (mount_step(later, MountMode::ReadWrite) matches Err(e) && (e
                is Block || e == Ext2Error::MountRequiresCleanFilesystem))
            &&& holds(later, v) && (forall|n: nat|
                later.clock <= n ==> #[trigger] (later.answers)(n) is Done)
                ==> mount_step(later, MountMode::ReadWrite) == Err::<Volume, _>(
                Ext2Error::MountRequiresCleanFilesystem,
            )
        },
{
    let v = volume_on(disk, unread_geometry(), MountHealth::ReadOnly);
    lemma_with_state(v.blocks[0], v.blocks[1], STATE_DIRTY);
    if let Ok(v) = mount_step(disk, MountMode::ReadWrite) {
        if holds(later, v) {
            let w = volume_on(later, unread_geometry(), MountHealth::ReadOnly);
            assert(w.blocks[0] == v.blocks[0]);
        }
    }
}

/// After an unmount that succeeds the file system is marked as clean, all else on it is as it
/// was, and it can be mounted again for reading or for changes. Only a failure of the device
/// stops that.
pub proof fn law_unmounted_can_be_mounted_again(v: Volume, later: Disk, mode: MountMode)
    requires
        v.wf(),
        profile(v.blocks[0], v.blocks[1]) is Ok,
        unmount_step(v).result is Ok,
        holds(later, unmount_step(v).volume),
    ensures
        ({
            let w = unmount_step(v).volume;
            &&& w.health == MountHealth::Unmounted
            &&& w.blocks == v.blocks.update(0, with_state(v.blocks[0], STATE_CLEAN))
            &&& recorded_state(w.blocks[0]) == STATE_CLEAN
            &&& mount_step(later, mode) matches Err(e) ==> e is Block
        }),
{
    lemma_with_state(v.blocks[0], v.blocks[1], STATE_CLEAN);
    let w = unmount_step(v).volume;
    let u = volume_on(later, unread_geometry(), MountHealth::ReadOnly);
    assert(u.blocks[0] == w.blocks[0]);
    assert(u.blocks[1] == v.blocks[1]);
}

} // verus!
