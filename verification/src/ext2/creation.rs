//! What creating files and directories changes, and what it keeps.
use vstd::prelude::*;

use crate::bytes::{
    le16, le32, lemma_le16_written, lemma_le32_written, splice, to_le16, to_le32, zeros,
};
use crate::fs::{name_check, NodeId, NodeKind};

use super::allocator::{claim_block_step, claim_inode_step, lemma_with_mark, marked};
use super::contents::{
    accounting, bitmap_of, contents, file_layout, file_len, file_record, healthy_file,
    law_claim_takes_a_free_block, law_claim_takes_a_free_inode, lemma_claim_marks, lemma_store,
    lemma_write, marks_grow, ownable, owns, same_frame, sound,
};
use super::directory::{
    block_limit, blocks_for, dot_name, encoded, find, free_slot, grown, insert_existing,
    insert_fresh, insert_step, kind_of, lookup_step, named, only_read, placed, resolve_dir_step,
    type_of, without, Entry, NewEntry, DIRECTORY_FILETYPE_DIRECTORY, DOT,
};
use super::entries::{
    entries_of, insertable, inserted, lacks, lemma_encoded, lemma_encoded_parts, lemma_placed,
    named_entry,
};
use super::inode::{
    load_step, metadata_of, pointer_of, store_step, supported, table_block, valid_node,
    DIRECT_BLOCKS, INODE_BYTES, MAX_FILE_BYTES,
};
use super::mutation::{
    create_dir_step, create_file_step, found_directory_step, new_directory_block,
    new_directory_record, new_file_record, parent_links_step, require_absent_step, used_dirs_step,
    NEW_DIRECTORY_MODE, NEW_FILE_MODE, TABLE_LEN,
};
use super::on_disk::{
    BLOCK_BYTES, DIRECTORY_RECORD_LENGTH, INODE_BLOCK, INODE_BLOCKS, INODE_LINKS, INODE_MODE,
    INODE_SIZE_LO,
};
use super::tree::{
    all_in_use, apart, directory_blocks, distinct_names, entries, gathered, healthy_dir, in_use,
    law_lookup_gives_the_entry, lemma_apart_kept, lemma_block_changed, lemma_directory_alike,
    lemma_directory_kept, lemma_file_kept, lemma_find, lemma_gathered_around, lemma_kept_by,
    lemma_load_directory_block, lemma_owned, lemma_parent_links, lemma_reread, lemma_used_dirs,
    node_kept, undamaged,
};
use super::volume::Volume;
use super::{Ext2Error, PROFILE_BLOCKS};

verus! {

/// An entry that was inserted is found, where no other has its name.
proof fn lemma_find_inserted(before: Seq<Entry>, entry: Entry, after: Seq<Entry>, name: Seq<u8>)
    requires
        inserted(before, entry, after),
        lacks(before, name),
        entry.name == Some(name),
    ensures
        find(after, name) == Some(entry.node),
{
    let k = choose|k: int| 0 <= k <= before.len() && after == #[trigger] before.insert(k, entry);
    lemma_find(after, name);
    assert(after[k] == entry);
    assert forall|i: int| 0 <= i < after.len() && i != k implies (#[trigger] after[i]).name != Some(
        name,
    ) by {
        if i < k {
            assert(after[i] == before[i]);
        } else {
            assert(after[i] == before[i - 1]);
        }
    }
}

/// What holds of every entry holds after one more was inserted of which it holds.
proof fn lemma_inserted(
    v: Volume,
    before: Seq<Entry>,
    entry: Entry,
    after: Seq<Entry>,
    name: Seq<u8>,
)
    requires
        inserted(before, entry, after),
        entry.name == Some(name),
        lacks(before, name),
        all_in_use(v, before),
        in_use(v, entry.node, entry.kind),
        distinct_names(before),
    ensures
        all_in_use(v, after),
        distinct_names(after),
{
    let k = choose|k: int| 0 <= k <= before.len() && after == #[trigger] before.insert(k, entry);
    assert forall|i: int| 0 <= i < after.len() implies in_use(
        v,
        (#[trigger] after[i]).node,
        after[i].kind,
    ) by {
        if i < k {
            assert(after[i] == before[i]);
        } else if i > k {
            assert(after[i] == before[i - 1]);
        }
    }
    assert forall|i: int, j: int|
        0 <= i < j < after.len() && (#[trigger] after[i]).name is Some implies after[i].name != (
    #[trigger] after[j]).name by {
        let a = if i < k {
            i
        } else {
            i - 1
        };
        let b = if j < k {
            j
        } else {
            j - 1
        };
        if i != k {
            assert(after[i] == before[a]);
        }
        if j != k {
            assert(after[j] == before[b]);
        }
    }
}

proof fn lemma_gathered_longer(blocks: Seq<Seq<u8>>, more: Seq<Seq<u8>>, len: int, n: int)
    requires
        0 <= len,
        len % (BLOCK_BYTES as int) == 0,
        n <= blocks.len() <= more.len(),
        n <= blocks_for(len),
        forall|l: int| 0 <= l < n ==> more[l] == blocks[l],
    ensures
        gathered(more, len + BLOCK_BYTES, n) == gathered(blocks, len, n),
    decreases n,
{
    if n > 0 {
        lemma_gathered_longer(blocks, more, len, n - 1);
        assert((len + BLOCK_BYTES) % (BLOCK_BYTES as int) == 0);
        assert(block_limit(len + BLOCK_BYTES, n - 1) == block_limit(len, n - 1));
    }
}

/// Putting an entry into a block of a directory that has room puts it into the directory.
pub(crate) proof fn lemma_insert_existing(v: Volume, u: Volume, dir: NodeId, l: int, new: NewEntry)
    requires
        healthy_dir(v, dir),
        only_read(v, u),
        0 <= l <= blocks_for(file_len(v, dir)),
        insertable(new.node, new.file_type, new.name),
        in_use(v, NodeId(new.node), kind_of(new.file_type)->0),
        lacks(entries(v, dir), new.name),
    ensures
        ({
            let s = insert_existing(u, file_record(v, dir), l, new);
            let w = s.volume;
            &&& s.result == Ok::<bool, Ext2Error>(false) ==> only_read(v, w)
            &&& s.result == Ok::<bool, Ext2Error>(true) ==> {
                &&& same_frame(v, w)
                &&& healthy_dir(w, dir)
                &&& file_len(w, dir) == file_len(v, dir)
                &&& file_layout(w, dir) == file_layout(v, dir)
                &&& inserted(
                    entries(v, dir),
                    named_entry(new.node, new.file_type, new.name),
                    entries(w, dir),
                )
                &&& forall|node: NodeId| valid_node(node) ==> #[trigger] node_kept(v, w, node)
                &&& bitmap_of(w) == bitmap_of(v)
                &&& forall|b: int|
                    0 <= b < PROFILE_BLOCKS && !owns(file_layout(v, dir), b)
                        ==> #[trigger] w.blocks[b] == v.blocks[b]
            }
        }),
    decreases blocks_for(file_len(v, dir)) - l,
{
    let record = file_record(v, dir);
    let len = file_len(v, dir);
    let blocks = directory_blocks(v, dir);
    if l < blocks_for(len) {
        lemma_load_directory_block(v, u, dir, l);
        let number = file_layout(v, dir).data[l];
        let limit = block_limit(len, l);
        let found = resolve_dir_step(u, record, l);
        if found.result is Ok {
            let loaded = found.volume.read_for_update(number);
            if loaded.result is Ok {
                let block = blocks[l];
                assert(loaded.result->Ok_0 == block);
                assert(entries_of(block, 0, limit) is Some);
                match placed(block, 0, limit, new.node, new.file_type, new.name) {
                    None => {
                        lemma_insert_existing(v, loaded.volume, dir, l + 1, new);
                    },
                    Some(after) => {
                        lemma_placed(block, 0, limit, new.node, new.file_type, new.name);
                        lemma_write(loaded.volume, number, after);
                        let s = loaded.volume.write_through(number, after);
                        if s.result is Ok {
                            let w = s.volume;
                            let entry = named_entry(new.node, new.file_type, new.name);
                            lemma_block_changed(v, w, dir, l, after);
                            let (first, rest) = lemma_gathered_around(
                                blocks,
                                len,
                                blocks_for(len),
                                l,
                                after,
                            );
                            lemma_inserted_between(
                                first,
                                entries_of(block, 0, limit)->0,
                                entry,
                                entries_of(after, 0, limit)->0,
                                rest,
                            );
                            assert(in_use(w, entry.node, entry.kind)) by {
                                assert(node_kept(v, w, entry.node));
                            }
                            assert(all_in_use(w, entries(v, dir))) by {
                                assert forall|i: int| 0 <= i < entries(v, dir).len() implies in_use(
                                    w,
                                    (#[trigger] entries(v, dir)[i]).node,
                                    entries(v, dir)[i].kind,
                                ) by {
                                    assert(node_kept(v, w, entries(v, dir)[i].node));
                                }
                            }
                            lemma_inserted(w, entries(v, dir), entry, entries(w, dir), new.name);
                            assert(owns(file_layout(v, dir), number as int));
                        }
                    },
                }
            }
        }
    }
}

proof fn lemma_inserted_between(
    first: Seq<Entry>,
    before: Seq<Entry>,
    entry: Entry,
    after: Seq<Entry>,
    rest: Seq<Entry>,
)
    requires
        inserted(before, entry, after),
    ensures
        inserted(first + before + rest, entry, first + after + rest),
{
    let k = choose|k: int| 0 <= k <= before.len() && after == #[trigger] before.insert(k, entry);
    assert(first + after + rest =~= (first + before + rest).insert(first.len() + k, entry));
}

proof fn lemma_free_slot(record: Seq<u8>, from: int)
    requires
        0 <= from,
    ensures
        free_slot(record, from) matches Some(slot) ==> {
            &&& from <= slot < DIRECT_BLOCKS
            &&& pointer_of(record, slot) == 0
            &&& forall|i: int| from <= i < slot ==> #[trigger] pointer_of(record, i) != 0
        },
    decreases DIRECT_BLOCKS - from,
{
    if from < DIRECT_BLOCKS && pointer_of(record, from) != 0 {
        lemma_free_slot(record, from + 1);
    }
}

/// A record that was given one more block has it, and a length to match.
proof fn lemma_grown(record: Seq<u8>, slot: int, block: u32)
    requires
        record.len() == INODE_BYTES,
        supported(record),
        metadata_of(record)->Ok_0.kind == NodeKind::Directory,
        metadata_of(record)->Ok_0.len + BLOCK_BYTES <= MAX_FILE_BYTES,
        0 <= slot < DIRECT_BLOCKS,
    ensures
        grown(record, slot, block).len() == INODE_BYTES,
        supported(grown(record, slot, block)),
        metadata_of(grown(record, slot, block))->Ok_0.kind == NodeKind::Directory,
        metadata_of(grown(record, slot, block))->Ok_0.len == metadata_of(record)->Ok_0.len
            + BLOCK_BYTES,
        forall|i: int|
            0 <= i <= 12 ==> #[trigger] pointer_of(grown(record, slot, block), i) == (if i == slot {
                block
            } else {
                pointer_of(record, i)
            }),
{
    let len = (metadata_of(record)->Ok_0.len + BLOCK_BYTES) as u32;
    let sectors = (le32(record, INODE_BLOCKS as int) + 8) as u32;
    let sized = splice(record, INODE_SIZE_LO as int, to_le32(len));
    let counted = splice(sized, INODE_BLOCKS as int, to_le32(sectors));
    let done = grown(record, slot, block);
    assert(done == splice(counted, INODE_BLOCK + 4 * slot, to_le32(block)));
    lemma_le32_written(record, INODE_SIZE_LO as int, len);
    lemma_le32_written(counted, INODE_BLOCK + 4 * slot, block);
    assert(le32(done, INODE_SIZE_LO as int) == len);
}

/// What putting an entry into a directory leaves: the entries of before and the new one. Other
/// nodes keep their records, and blocks that were in use outside the directory their content.
pub open spec fn entered(v: Volume, dir: NodeId, entry: Entry, w: Volume) -> bool {
    &&& same_frame(v, w)
    &&& healthy_dir(w, dir)
    &&& inserted(entries(v, dir), entry, entries(w, dir))
    &&& file_len(w, dir) % (BLOCK_BYTES as int) == 0
    &&& marks_grow(v, w)
    &&& forall|node: NodeId| valid_node(node) && node != dir ==> #[trigger] node_kept(v, w, node)
    &&& forall|b: u32|
        #[trigger] ownable(v, b) && !owns(file_layout(v, dir), b as int) ==> w.blocks[b as int]
            == v.blocks[b as int] && !owns(file_layout(w, dir), b as int)
}

/// A block of directory records without an entry.
pub(crate) open spec fn blank_block() -> Seq<u8> {
    splice(zeros(BLOCK_BYTES as nat), DIRECTORY_RECORD_LENGTH as int, to_le16(4096))
}

/// What giving a directory one more block leaves.
#[verifier::opaque]
pub(crate) open spec fn widened(
    v: Volume,
    dir: NodeId,
    block: u32,
    content: Seq<u8>,
    w: Volume,
) -> bool {
    &&& same_frame(v, w)
    &&& file_record(w, dir) == grown(
        file_record(v, dir),
        blocks_for(file_len(v, dir)),
        block,
    )
    &&& blocks_for(file_len(v, dir)) < DIRECT_BLOCKS
    &&& marks_grow(v, w)
    &&& !marked(bitmap_of(v), block as int)
    &&& ownable(w, block)
    &&& w.blocks[block as int] == content
    &&& forall|node: NodeId| valid_node(node) && node != dir ==> #[trigger] node_kept(v, w, node)
    &&& marked(w.blocks[w.geometry.inode_bitmap as int], dir.0 - 1) == marked(
        v.blocks[v.geometry.inode_bitmap as int],
        dir.0 - 1,
    )
    &&& forall|b: u32| #[trigger] ownable(v, b) ==> w.blocks[b as int] == v.blocks[b as int]
}

pub(crate) proof fn lemma_insert_fresh(v: Volume, dir: NodeId, new: NewEntry)
    requires
        healthy_dir(v, dir),
        insertable(new.node, new.file_type, new.name),
        insert_fresh(v, dir, new).result is Ok,
    ensures
        ({
            let block = claim_block_step(v).result->Ok_0;
            let content = encoded(new.node, BLOCK_BYTES as int, new.file_type, new.name);
            let v1 = claim_block_step(v).volume;
            let v2 = v1.write_through(block, blank_block()).volume;
            let v3 = load_step(v2, dir).volume;
            let image = grown(file_record(v, dir), blocks_for(file_len(v, dir)), block);
            let v4 = store_step(v3, dir, image).volume;
            &&& claim_block_step(v).result is Ok
            &&& v1.write_through(block, blank_block()).result is Ok
            &&& load_step(v2, dir).result is Ok
            &&& store_step(v3, dir, image).result is Ok
            &&& v4.write_through(block, content) == insert_fresh(v, dir, new)
            &&& forall|node: NodeId| valid_node(node) ==> #[trigger] node_kept(v, v2, node)
            &&& widened(v, dir, block, blank_block(), v4)
            &&& widened(v, dir, block, content, insert_fresh(v, dir, new).volume)
        }),
{
    reveal(insert_fresh);
    reveal(widened);
    law_claim_takes_a_free_block(v);
    lemma_claim_marks(v);
    let blank = blank_block();
    let block = claim_block_step(v).result->Ok_0;
    let v1 = claim_block_step(v).volume;
    lemma_write(v1, block, blank);
    let v2 = v1.write_through(block, blank).volume;
    let record = file_record(v, dir);
    assert forall|node: NodeId| valid_node(node) implies #[trigger] node_kept(v, v2, node) by {
        let t = table_block(v.geometry, node);
        assert(v.geometry.structural(t) && !accounting(v, t as int));
        assert(v1.blocks[t as int] == v.blocks[t as int]);
        let m = v.geometry.inode_bitmap;
        assert(v.geometry.structural(m) && !accounting(v, m as int));
        assert(v1.blocks[m as int] == v.blocks[m as int]);
    }
    assert(node_kept(v, v2, dir));
    let loaded = load_step(v2, dir);
    assert(loaded.result->Ok_0 == record);
    let v3 = loaded.volume;
    let slot = free_slot(record, 0)->0;
    lemma_free_slot(record, 0);
    let layout = file_layout(v, dir);
    assert(layout.data[slot] == pointer_of(record, slot));
    assert(slot == blocks_for(file_len(v, dir))) by {
        if slot > blocks_for(file_len(v, dir)) {
            let k = blocks_for(file_len(v, dir));
            assert(layout.data[k] == pointer_of(record, k));
        }
    }
    let image = grown(record, slot, block);
    lemma_grown(record, slot, block);
    lemma_store(v3, dir, image);
    let v4 = store_step(v3, dir, image).volume;
    let content = encoded(new.node, BLOCK_BYTES as int, new.file_type, new.name);
    lemma_encoded_parts(new.node, BLOCK_BYTES as int, new.file_type, new.name);
    lemma_write(v4, block, content);
    let w = v4.write_through(block, content).volume;
    assert(w == insert_fresh(v, dir, new).volume);
    let t = table_block(v.geometry, dir);
    assert(v.geometry.structural(t));
    assert(file_record(w, dir) == image);
    assert forall|node: NodeId| valid_node(node) && node != dir implies #[trigger] node_kept(
        v,
        w,
        node,
    ) by {
        assert(node_kept(v, v2, node));
        assert(file_record(v4, node) == file_record(v3, node));
        assert(v.geometry.structural(table_block(v.geometry, node)));
        assert(v.geometry.structural(v.geometry.inode_bitmap));
    }
    assert(v.geometry.structural(v.geometry.inode_bitmap));
    assert(v.geometry.structural(v.geometry.block_bitmap));
    assert(bitmap_of(w) == bitmap_of(v1));
    assert forall|b: u32| #[trigger] ownable(v, b) implies w.blocks[b as int] == v.blocks[b as int]
        && v4.blocks[b as int] == v.blocks[b as int] by {
        assert(v1.blocks[b as int] == v.blocks[b as int]);
    }
    assert(widened(v, dir, block, content, w));
    assert forall|node: NodeId| valid_node(node) && node != dir implies #[trigger] node_kept(
        v,
        v4,
        node,
    ) by {
        assert(node_kept(v, v2, node));
        assert(file_record(v4, node) == file_record(v3, node));
    }
    assert(bitmap_of(v4) == bitmap_of(v1));
    assert(widened(v, dir, block, blank, v4));
}

/// A directory that was given a block has the block's entries behind the others.
pub(crate) proof fn lemma_widened_by(
    v: Volume,
    dir: NodeId,
    block: u32,
    content: Seq<u8>,
    w: Volume,
)
    requires
        healthy_dir(v, dir),
        file_len(v, dir) % (BLOCK_BYTES as int) == 0,
        entries_of(content, 0, BLOCK_BYTES as int) is Some,
        widened(v, dir, block, content, w),
    ensures
        same_frame(v, w),
        marks_grow(v, w),
        forall|node: NodeId| valid_node(node) && node != dir ==> #[trigger] node_kept(v, w, node),
        file_len(w, dir) % (BLOCK_BYTES as int) == 0,
        entries(w, dir) == entries(v, dir) + entries_of(content, 0, BLOCK_BYTES as int)->0,
        file_len(w, dir) == file_len(v, dir) + BLOCK_BYTES,
        forall|node: NodeId, kind: NodeKind| #[trigger] in_use(v, node, kind) ==> in_use(w, node, kind),
        all_in_use(w, entries(v, dir)),
        forall|b: u32|
            #[trigger] ownable(v, b) && !owns(file_layout(v, dir), b as int) ==> w.blocks[b as int]
                == v.blocks[b as int] && !owns(file_layout(w, dir), b as int),
        all_in_use(w, entries(w, dir)) && distinct_names(entries(w, dir)) ==> healthy_dir(w, dir),
{
    reveal(widened);
    let record = file_record(v, dir);
    let len = file_len(v, dir);
    let slot = blocks_for(len);
    assert(len <= 11 * BLOCK_BYTES);
    lemma_grown(record, slot, block);
    let layout = file_layout(v, dir);
    let after = file_layout(w, dir);
    assert(pointer_of(file_record(w, dir), 12) == pointer_of(record, 12));
    if layout.indirect != 0 {
        assert(ownable(v, layout.indirect));
    }
    assert(after.indirect == layout.indirect);
    assert forall|i: int| 0 <= i < TABLE_LEN implies #[trigger] after.data[i] == (if i == slot {
        block
    } else {
        layout.data[i]
    }) by {
        if i < DIRECT_BLOCKS {
            assert(pointer_of(file_record(w, dir), i) == after.data[i]);
            assert(pointer_of(record, i) == layout.data[i]);
        }
    }
    assert(sound(w, after)) by {
        assert forall|i: int| 0 <= i < TABLE_LEN && #[trigger] after.data[i] != 0 implies ownable(
            w,
            after.data[i],
        ) && after.data[i] != after.indirect by {
            if i != slot {
                assert(after.data[i] == layout.data[i]);
                assert(ownable(v, layout.data[i]));
            }
        }
        assert forall|i: int, j: int|
            0 <= i < j < TABLE_LEN && #[trigger] after.data[i] != 0 implies after.data[i]
            != #[trigger] after.data[j] by {
            if i != slot {
                assert(after.data[i] == layout.data[i]);
                assert(ownable(v, layout.data[i]));
            }
            if j != slot {
                assert(after.data[j] == layout.data[j]);
                if layout.data[j] != 0 {
                    assert(ownable(v, layout.data[j]));
                }
            }
        }
        assert forall|i: int| DIRECT_BLOCKS <= i < TABLE_LEN && after.indirect == 0
            implies #[trigger] after.data[i] == 0 by {
            assert(after.data[i] == layout.data[i]);
        }
    }
    let more = len + BLOCK_BYTES;
    assert(file_len(w, dir) == more);
    assert(blocks_for(more) == slot + 1);
    assert forall|l: int| 0 <= l < TABLE_LEN implies (#[trigger] after.data[l] != 0) == (l
        < blocks_for(more)) by {
        assert(l != slot ==> after.data[l] == layout.data[l]);
    }
    let old_blocks = directory_blocks(v, dir);
    let blocks = directory_blocks(w, dir);
    assert forall|l: int| 0 <= l < slot implies #[trigger] blocks[l] == old_blocks[l] by {
        assert(after.data[l] == layout.data[l]);
        assert(layout.data[l] != 0);
        assert(ownable(v, layout.data[l]));
    }
    assert(blocks[slot] == content) by {
        assert(after.data[slot] == block);
    }
    assert(more % (BLOCK_BYTES as int) == 0);
    assert(block_limit(more, slot) == BLOCK_BYTES);
    assert(undamaged(blocks, more)) by {
        assert forall|l: int| 0 <= l < blocks_for(more) implies entries_of(
            #[trigger] blocks[l],
            0,
            block_limit(more, l),
        ) is Some by {
            if l < slot {
                assert(blocks[l] == old_blocks[l]);
                assert(block_limit(more, l) == block_limit(len, l));
            }
        }
    }
    lemma_gathered_longer(old_blocks, blocks, len, slot);
    assert(in_use(w, dir, NodeKind::Directory));
    assert forall|node: NodeId, kind: NodeKind| #[trigger] in_use(v, node, kind) implies in_use(
        w,
        node,
        kind,
    ) by {
        if node != dir {
            assert(node_kept(v, w, node));
        }
    }
    assert(all_in_use(w, entries(v, dir))) by {
        assert forall|i: int| 0 <= i < entries(v, dir).len() implies in_use(
            w,
            (#[trigger] entries(v, dir)[i]).node,
            entries(v, dir)[i].kind,
        ) by {
            assert(in_use(v, entries(v, dir)[i].node, entries(v, dir)[i].kind));
        }
    }
    assert forall|b: u32|
        #[trigger] ownable(v, b) && !owns(layout, b as int) implies w.blocks[b as int]
        == v.blocks[b as int] && !owns(after, b as int) by {
        if owns(after, b as int) {
            let i = choose|i: int| 0 <= i < after.data.len() && #[trigger] after.data[i] == b;
            assert(i != slot ==> after.data[i] == layout.data[i]);
        }
    }
}

/// What holds of every entry holds after one more was appended of which it holds.
proof fn lemma_appended(
    v: Volume,
    before: Seq<Entry>,
    entry: Entry,
    after: Seq<Entry>,
    name: Seq<u8>,
)
    requires
        after == before + seq![entry],
        entry.name == Some(name),
        lacks(before, name),
        all_in_use(v, before),
        in_use(v, entry.node, entry.kind),
        distinct_names(before),
    ensures
        inserted(before, entry, after),
        all_in_use(v, after),
        distinct_names(after),
{
    assert(after =~= before.insert(before.len() as int, entry));
    lemma_inserted(v, before, entry, after, name);
}

/// A directory that was given a block with one entry has that entry behind the others.
pub(crate) proof fn lemma_widened(v: Volume, dir: NodeId, block: u32, new: NewEntry, w: Volume)
    requires
        healthy_dir(v, dir),
        file_len(v, dir) % (BLOCK_BYTES as int) == 0,
        insertable(new.node, new.file_type, new.name),
        in_use(v, NodeId(new.node), kind_of(new.file_type)->0),
        lacks(entries(v, dir), new.name),
        widened(
            v,
            dir,
            block,
            encoded(new.node, BLOCK_BYTES as int, new.file_type, new.name),
            w,
        ),
    ensures
        entered(v, dir, named_entry(new.node, new.file_type, new.name), w),
{
    let content = encoded(new.node, BLOCK_BYTES as int, new.file_type, new.name);
    let entry = named_entry(new.node, new.file_type, new.name);
    lemma_only_entry(new.node, new.file_type, new.name);
    lemma_widened_by(v, dir, block, content, w);
    lemma_appended(w, entries(v, dir), entry, entries(w, dir), new.name);
}

/// A block that was filled with one record holds one entry.
proof fn lemma_only_entry(node: u32, file_type: u8, name: Seq<u8>)
    requires
        insertable(node, file_type, name),
    ensures
        entries_of(encoded(node, BLOCK_BYTES as int, file_type, name), 0, BLOCK_BYTES as int)
            == Some(seq![named_entry(node, file_type, name)]),
{
    let content = encoded(node, BLOCK_BYTES as int, file_type, name);
    lemma_encoded_parts(node, BLOCK_BYTES as int, file_type, name);
    let part = content.subrange(4, 6);
    assert(part[0] == content[4] && part[1] == content[5]);
    assert(le16(content, DIRECTORY_RECORD_LENGTH as int) == BLOCK_BYTES);
    lemma_encoded(
        content,
        0,
        BLOCK_BYTES as int,
        node,
        BLOCK_BYTES as int,
        file_type,
        name,
        BLOCK_BYTES as int,
    );
    let entry = named_entry(node, file_type, name);
    assert(entries_of(content, BLOCK_BYTES as int, BLOCK_BYTES as int) == Some(Seq::<Entry>::empty()));
    assert(seq![entry] + Seq::<Entry>::empty() =~= seq![entry]);
}

/// An insertion that succeeds puts the entry into the directory.
pub(crate) proof fn lemma_insert(v: Volume, dir: NodeId, new: NewEntry)
    requires
        healthy_dir(v, dir),
        file_len(v, dir) % (BLOCK_BYTES as int) == 0,
        insertable(new.node, new.file_type, new.name),
        in_use(v, NodeId(new.node), kind_of(new.file_type)->0),
        lacks(entries(v, dir), new.name),
        insert_step(v, dir, new).result is Ok,
    ensures
        entered(
            v,
            dir,
            named_entry(new.node, new.file_type, new.name),
            insert_step(v, dir, new).volume,
        ),
{
    reveal(insert_step);
    let loaded = load_step(v, dir);
    let u = loaded.volume;
    lemma_insert_existing(v, u, dir, 0, new);
    let s = insert_existing(u, file_record(v, dir), 0, new);
    let w = s.volume;
    if s.result == Ok::<bool, Ext2Error>(false) {
        lemma_reread(v, w, dir);
        lemma_insert_fresh(w, dir, new);
        let content = encoded(new.node, BLOCK_BYTES as int, new.file_type, new.name);
        let last = insert_fresh(w, dir, new).volume;
        let block = claim_block_step(w).result->Ok_0;
        lemma_widened(w, dir, block, new, last);
        let entry = named_entry(new.node, new.file_type, new.name);
        assert(entered(w, dir, entry, last));
        assert forall|node: NodeId| valid_node(node) && node != dir implies #[trigger] node_kept(
            v,
            last,
            node,
        ) by {
            assert(node_kept(w, last, node));
        }
        assert forall|b: u32|
            #[trigger] ownable(v, b) && !owns(file_layout(v, dir), b as int) implies last.blocks[
        b as int] == v.blocks[b as int] && !owns(file_layout(last, dir), b as int) by {
            assert(ownable(w, b));
        }
        assert(marks_grow(v, last)) by {
            assert(bitmap_of(w) == bitmap_of(v));
        }
    }
}

/// A name that may be given is one that no entry has.
pub(crate) proof fn lemma_require_absent(v: Volume, dir: NodeId, name: Seq<u8>)
    requires
        healthy_dir(v, dir),
        require_absent_step(v, dir, name).result is Ok,
    ensures
        only_read(v, require_absent_step(v, dir, name).volume),
        lacks(entries(v, dir), name),
{
    reveal(require_absent_step);
    let u = load_step(v, dir).volume;
    lemma_reread(v, u, dir);
    law_lookup_gives_the_entry(u, dir, name);
    lemma_find(entries(v, dir), name);
}

/// Claiming an inode keeps a directory and gives a node that was not in use.
pub(crate) proof fn lemma_claim_inode(v: Volume, dir: NodeId)
    requires
        healthy_dir(v, dir),
    ensures
        claim_inode_step(v).result matches Ok(number) ==> {
            let w = claim_inode_step(v).volume;
            &&& same_frame(v, w)
            &&& healthy_dir(w, dir)
            &&& entries(w, dir) == entries(v, dir)
            &&& file_layout(w, dir) == file_layout(v, dir)
            &&& file_len(w, dir) == file_len(v, dir)
            &&& valid_node(NodeId(number))
            &&& !marked(v.blocks[v.geometry.inode_bitmap as int], number - 1)
            &&& marked(w.blocks[v.geometry.inode_bitmap as int], number - 1)
            &&& bitmap_of(w) == bitmap_of(v)
            &&& forall|node: NodeId|
                valid_node(node) && node != NodeId(number) ==> #[trigger] node_kept(v, w, node)
            &&& forall|b: u32| #[trigger] ownable(v, b) ==> w.blocks[b as int] == v.blocks[b as int]
        },
{
    law_claim_takes_a_free_inode(v);
    if let Ok(number) = claim_inode_step(v).result {
        let w = claim_inode_step(v).volume;
        let m = v.geometry.inode_bitmap;
        let bitmap = v.blocks[m as int];
        assert(v.geometry.structural(m));
        lemma_with_mark(bitmap, number - 1, true, number - 1);
        assert forall|node: NodeId|
            valid_node(node) && node != NodeId(number) implies #[trigger] node_kept(v, w, node) by {
            lemma_with_mark(bitmap, number - 1, true, node.0 - 1);
            let t = table_block(v.geometry, node);
            assert(v.geometry.structural(t) && t != m && t >= 2);
        }
        assert(bitmap_of(w) == bitmap_of(v));
        assert forall|b: u32| #[trigger] ownable(v, b) implies w.blocks[b as int]
            == v.blocks[b as int] by {
            assert(b >= 2 && b != m);
        }
        lemma_kept_by(v, w, dir, NodeId(number));
    }
}

/// A new file's record is that of an empty regular file.
pub(crate) proof fn lemma_new_file_record()
    ensures
        ({
            let record = new_file_record();
            &&& record.len() == INODE_BYTES
            &&& supported(record)
            &&& metadata_of(record)->Ok_0.kind == NodeKind::Regular
            &&& metadata_of(record)->Ok_0.len == 0
            &&& forall|i: int| 0 <= i <= 12 ==> #[trigger] pointer_of(record, i) == 0
        }),
{
    let blank = zeros(INODE_BYTES as nat);
    let moded = splice(blank, INODE_MODE as int, to_le16(NEW_FILE_MODE));
    lemma_le16_written(blank, INODE_MODE as int, NEW_FILE_MODE);
    let record = new_file_record();
    assert(le16(record, INODE_MODE as int) == le16(moded, INODE_MODE as int));
    assert forall|i: int| 0 <= i <= 14 implies #[trigger] pointer_of(record, i) == 0 by {}
}

/// What creating a node leaves: its directory has one more entry, which names it, and keeps the
/// others. The node was not in use and is now. Other nodes keep their records, and blocks that
/// were in use outside the directory their content and marks.
pub open spec fn gained(v: Volume, parent: NodeId, entry: Entry, w: Volume) -> bool {
    &&& same_frame(v, w)
    &&& healthy_dir(w, parent)
    &&& inserted(entries(v, parent), entry, entries(w, parent))
    &&& file_len(w, parent) % (BLOCK_BYTES as int) == 0
    &&& !marked(v.blocks[v.geometry.inode_bitmap as int], entry.node.0 - 1)
    &&& in_use(w, entry.node, entry.kind)
    &&& marks_grow(v, w)
    &&& forall|node: NodeId|
        valid_node(node) && node != parent && node != entry.node ==> #[trigger] node_kept(
            v,
            w,
            node,
        )
    &&& forall|b: u32|
        #[trigger] ownable(v, b) && !owns(file_layout(v, parent), b as int) ==> w.blocks[b as int]
            == v.blocks[b as int] && !owns(file_layout(w, parent), b as int)
}

/// A lookup gives a node, unless the device fails.
pub open spec fn finds(v: Volume, dir: NodeId, name: Seq<u8>, node: NodeId) -> bool {
    lookup_step(v, dir, name).result matches Err(Ext2Error::Block(_)) || lookup_step(
        v,
        dir,
        name,
    ).result == Ok::<NodeId, Ext2Error>(node)
}

/// Creating a file puts an entry for it into its directory, where it is found from then on, and
/// changes nothing else. The file is empty and has no block, and its node was not in use.
pub proof fn law_a_new_file_is_found(v: Volume, parent: NodeId, name: Seq<u8>)
    requires
        healthy_dir(v, parent),
        file_len(v, parent) % (BLOCK_BYTES as int) == 0,
        name_check(name) is Ok,
        !dot_name(name),
    ensures
        create_file_step(v, parent, name).result matches Ok(node) ==> {
            let w = create_file_step(v, parent, name).volume;
            &&& gained(v, parent, Entry { node, name: Some(name), kind: NodeKind::Regular }, w)
            &&& finds(w, parent, name, node)
            &&& healthy_file(w, node)
            &&& contents(w, node) == Seq::<u8>::empty()
            &&& forall|c: int| !#[trigger] owns(file_layout(w, node), c)
        },
{
    if let Ok(node) = create_file_step(v, parent, name).result {
        let w = create_file_step(v, parent, name).volume;
        lemma_require_absent(v, parent, name);
        let v1 = require_absent_step(v, parent, name).volume;
        lemma_reread(v, v1, parent);
        lemma_claim_inode(v1, parent);
        let v2 = claim_inode_step(v1).volume;
        let number = claim_inode_step(v1).result->Ok_0;
        assert(node == NodeId(number));
        lemma_new_file_record();
        lemma_store(v2, node, new_file_record());
        let v3 = store_step(v2, node, new_file_record()).volume;
        let t = table_block(v.geometry, node);
        let m = v.geometry.inode_bitmap;
        assert(v.geometry.structural(m) && t != m);
        assert(v3.blocks[m as int] == v2.blocks[m as int]);
        assert(bitmap_of(v3) == bitmap_of(v1));
        assert forall|other: NodeId| valid_node(other) && other != node implies #[trigger] node_kept(
            v1,
            v3,
            other,
        ) by {
            assert(node_kept(v1, v2, other));
        }
        lemma_kept_by(v1, v3, parent, node);
        let new = NewEntry { node: number, file_type: type_of(NodeKind::Regular), name };
        lemma_insert(v3, parent, new);
        let entry = named_entry(number, type_of(NodeKind::Regular), name);
        assert(entered(v3, parent, entry, w));
        assert forall|other: NodeId|
            valid_node(other) && other != parent && other != node implies #[trigger] node_kept(
            v,
            w,
            other,
        ) by {
            assert(node_kept(v1, v3, other));
            assert(node_kept(v3, w, other));
        }
        assert(node != parent);
        assert(node_kept(v3, w, node));
        assert forall|b: u32|
            #[trigger] ownable(v, b) && !owns(file_layout(v, parent), b as int) implies w.blocks[
        b as int] == v.blocks[b as int] && !owns(file_layout(w, parent), b as int) by {
            assert(ownable(v1, b));
            assert(ownable(v3, b));
        }
        assert(marks_grow(v, w));
        law_lookup_gives_the_entry(w, parent, name);
        lemma_find_inserted(entries(v3, parent), entry, entries(w, parent), name);
        lemma_empty_file(w, node);
    }
}

/// A node with the record of a new file is a healthy file.
proof fn lemma_empty_file(w: Volume, node: NodeId)
    requires
        w.wf(),
        valid_node(node),
        file_record(w, node) == new_file_record(),
    ensures
        healthy_file(w, node),
        contents(w, node) == Seq::<u8>::empty(),
        forall|c: int| !#[trigger] owns(file_layout(w, node), c),
{
    lemma_new_file_record();
    let record = new_file_record();
    let layout = file_layout(w, node);
    assert(pointer_of(record, 12) == 0);
    assert forall|i: int| 0 <= i < TABLE_LEN implies #[trigger] layout.data[i] == 0 by {
        if i < DIRECT_BLOCKS {
            assert(pointer_of(record, i) == 0);
        }
    }
    assert(contents(w, node) =~= Seq::<u8>::empty());
}

/// A new directory's record is that of a directory with one block.
pub(crate) proof fn lemma_new_directory_record(block: u32)
    ensures
        ({
            let record = new_directory_record(block);
            &&& record.len() == INODE_BYTES
            &&& supported(record)
            &&& metadata_of(record)->Ok_0.kind == NodeKind::Directory
            &&& metadata_of(record)->Ok_0.len == BLOCK_BYTES
            &&& pointer_of(record, 0) == block
            &&& forall|i: int| 1 <= i <= 12 ==> #[trigger] pointer_of(record, i) == 0
        }),
{
    let blank = zeros(INODE_BYTES as nat);
    let mode = splice(blank, INODE_MODE as int, to_le16(NEW_DIRECTORY_MODE));
    lemma_le16_written(blank, INODE_MODE as int, NEW_DIRECTORY_MODE);
    let links = splice(mode, INODE_LINKS as int, to_le16(2));
    let size = splice(links, INODE_SIZE_LO as int, to_le32(4096));
    lemma_le32_written(links, INODE_SIZE_LO as int, 4096);
    let sectors = splice(size, INODE_BLOCKS as int, to_le32(8));
    lemma_le32_written(sectors, INODE_BLOCK as int, block);
    let record = new_directory_record(block);
    assert(le16(record, INODE_MODE as int) == le16(mode, INODE_MODE as int));
    assert(le32(record, INODE_SIZE_LO as int) == le32(size, INODE_SIZE_LO as int));
    assert forall|i: int| 1 <= i <= 14 implies #[trigger] pointer_of(record, i) == 0 by {}
}

/// The entries of a new directory: itself and its parent.
pub open spec fn own_entries(node: NodeId, parent: NodeId) -> Seq<Entry> {
    seq![
        Entry { node, name: None, kind: NodeKind::Directory },
        Entry { node: parent, name: None, kind: NodeKind::Directory },
    ]
}

/// A new directory's block holds the entries for itself and its parent.
pub(crate) proof fn lemma_new_directory_block(node: u32, parent: u32)
    requires
        valid_node(NodeId(node)),
        valid_node(NodeId(parent)),
    ensures
        new_directory_block(node, parent).len() == BLOCK_BYTES,
        entries_of(new_directory_block(node, parent), 0, BLOCK_BYTES as int) == Some(
            own_entries(NodeId(node), NodeId(parent)),
        ),
{
    let kind = DIRECTORY_FILETYPE_DIRECTORY;
    let a = encoded(node, 12, kind, seq![DOT]);
    let b = encoded(parent, BLOCK_BYTES - 12, kind, seq![DOT, DOT]);
    let all = new_directory_block(node, parent);
    let limit = BLOCK_BYTES as int;
    lemma_encoded_parts(node, 12, kind, seq![DOT]);
    lemma_encoded_parts(parent, BLOCK_BYTES - 12, kind, seq![DOT, DOT]);
    let x = a.subrange(4, 6);
    assert(x[0] == a[4] && x[1] == a[5]);
    assert(all[4] == a[4] && all[5] == a[5]);
    assert(le16(all, DIRECTORY_RECORD_LENGTH as int) == 12);
    lemma_encoded(all, 0, limit, node, 12, kind, seq![DOT], 12);
    let y = b.subrange(4, 6);
    assert(y[0] == b[4] && y[1] == b[5]);
    assert(all[16] == b[4] && all[17] == b[5]);
    assert(le16(all, 12 + DIRECTORY_RECORD_LENGTH) == BLOCK_BYTES - 12);
    lemma_encoded(
        all,
        12,
        limit,
        parent,
        BLOCK_BYTES - 12,
        kind,
        seq![DOT, DOT],
        BLOCK_BYTES - 12,
    );
    let none = Seq::<Entry>::empty();
    let second = Entry { node: NodeId(parent), name: None, kind: NodeKind::Directory };
    assert(entries_of(all, limit, limit) == Some(none));
    assert(entries_of(all, 12, limit) == Some(seq![second] + none));
    let first = Entry { node: NodeId(node), name: None, kind: NodeKind::Directory };
    assert(entries_of(all, 0, limit) == Some(seq![first] + (seq![second] + none)));
    assert(seq![first] + (seq![second] + none) =~= own_entries(NodeId(node), NodeId(parent)));
}

/// What founding a directory leaves: it holds the entries for itself and its parent, and the
/// parent is kept.
pub(crate) open spec fn founded(
    v: Volume,
    parent: NodeId,
    node: NodeId,
    block: u32,
    w: Volume,
) -> bool {
    &&& same_frame(v, w)
    &&& healthy_dir(w, parent)
    &&& entries(w, parent) == entries(v, parent)
    &&& file_layout(w, parent) == file_layout(v, parent)
    &&& file_len(w, parent) == file_len(v, parent)
    &&& healthy_dir(w, node)
    &&& entries(w, node) == own_entries(node, parent)
    &&& file_len(w, node) == BLOCK_BYTES
    &&& forall|b: int| #[trigger] owns(file_layout(w, node), b) ==> b == block
    &&& marks_grow(v, w)
    &&& forall|other: NodeId|
        valid_node(other) && other != parent && other != node ==> #[trigger] node_kept(v, w, other)
    &&& forall|b: u32|
        #[trigger] ownable(v, b) && b != block ==> w.blocks[b as int] == v.blocks[b as int]
}

/// A node whose record names a block with the entries for itself and its parent is a directory.
proof fn lemma_founded(w: Volume, parent: NodeId, node: NodeId, block: u32)
    requires
        w.wf(),
        valid_node(node),
        in_use(w, parent, NodeKind::Directory),
        file_record(w, node) == new_directory_record(block),
        marked(w.blocks[w.geometry.inode_bitmap as int], node.0 - 1),
        ownable(w, block),
        w.blocks[block as int] == new_directory_block(node.0, parent.0),
    ensures
        healthy_dir(w, node),
        entries(w, node) == own_entries(node, parent),
        file_len(w, node) == BLOCK_BYTES,
        forall|b: int| #[trigger] owns(file_layout(w, node), b) ==> b == block,
{
    let record = new_directory_record(block);
    lemma_new_directory_record(block);
    lemma_new_directory_block(node.0, parent.0);
    let layout = file_layout(w, node);
    assert(pointer_of(record, 12) == 0);
    assert forall|i: int| 1 <= i < TABLE_LEN implies #[trigger] layout.data[i] == 0 by {
        if i < DIRECT_BLOCKS {
            assert(pointer_of(record, i) == 0);
        }
    }
    assert(layout.data[0] == block);
    assert(sound(w, layout));
    assert(blocks_for(BLOCK_BYTES as int) == 1);
    let blocks = directory_blocks(w, node);
    assert(blocks[0] == w.blocks[block as int]);
    let all = own_entries(node, parent);
    assert(gathered(blocks, BLOCK_BYTES as int, 0) == Seq::<Entry>::empty());
    assert(block_limit(BLOCK_BYTES as int, 0) == BLOCK_BYTES);
    assert(gathered(blocks, BLOCK_BYTES as int, 1) == Seq::<Entry>::empty() + all);
    assert(Seq::<Entry>::empty() + all =~= all);
}

/// Founding a directory in a block that was just claimed.
#[verifier::rlimit(40)]
pub(crate) proof fn lemma_found_directory(v: Volume, parent: NodeId, number: u32, block: u32)
    requires
        healthy_dir(v, parent),
        valid_node(NodeId(number)),
        NodeId(number) != parent,
        forall|i: int|
            0 <= i < entries(v, parent).len() ==> (#[trigger] entries(v, parent)[i]).node.0 != number,
        marked(v.blocks[v.geometry.inode_bitmap as int], number - 1),
        ownable(v, block),
        !owns(file_layout(v, parent), block as int),
        found_directory_step(v, parent, number, block).result is Ok,
    ensures
        founded(
            v,
            parent,
            NodeId(number),
            block,
            found_directory_step(v, parent, number, block).volume,
        ),
{
    reveal(found_directory_step);
    let node = NodeId(number);
    let record = new_directory_record(block);
    lemma_new_directory_record(block);
    lemma_store(v, node, record);
    let v1 = store_step(v, node, record).volume;
    let content = new_directory_block(number, parent.0);
    lemma_new_directory_block(number, parent.0);
    lemma_write(v1, block, content);
    let v2 = v1.write_through(block, content).volume;
    lemma_used_dirs(v2, true);
    let v3 = used_dirs_step(v2, true).volume;
    let t = table_block(v.geometry, node);
    let m = v.geometry.inode_bitmap;
    assert(v.geometry.structural(m) && t != m && m >= 2);
    assert forall|other: NodeId| valid_node(other) && other != node implies #[trigger] node_kept(
        v,
        v3,
        other,
    ) by {
        let o = table_block(v.geometry, other);
        assert(v.geometry.structural(o) && o >= 2);
        assert(file_record(v1, other) == file_record(v, other));
    }
    assert(file_record(v3, node) == record) by {
        assert(v.geometry.structural(t) && t >= 2);
    }
    assert(bitmap_of(v3) == bitmap_of(v)) by {
        assert(v.geometry.structural(v.geometry.block_bitmap) && v.geometry.block_bitmap >= 2);
    }
    assert forall|b: u32| #[trigger] ownable(v, b) && b != block implies v3.blocks[b as int]
        == v.blocks[b as int] by {
        assert(b >= 2 && b != t);
    }
    let layout = file_layout(v, parent);
    assert forall|b: int| 0 <= b < PROFILE_BLOCKS && #[trigger] owns(layout, b) implies v3.blocks[b]
        == v.blocks[b] && marked(bitmap_of(v3), b) by {
        lemma_owned(v, layout, b);
        assert(ownable(v, b as u32) && b as u32 != block);
    }
    assert(node_kept(v, v3, parent));
    assert forall|i: int| 0 <= i < entries(v, parent).len() implies node_kept(
        v,
        v3,
        (#[trigger] entries(v, parent)[i]).node,
    ) by {
        assert(in_use(v, entries(v, parent)[i].node, entries(v, parent)[i].kind));
    }
    lemma_directory_kept(v, v3, parent);
    lemma_parent_links(v3, parent, true);
    let w = parent_links_step(v3, parent, true).volume;
    assert(w == found_directory_step(v, parent, number, block).volume);
    assert(node_kept(v3, w, node));
    assert(ownable(v3, block));
    assert(v3.blocks[block as int] == content) by {
        assert(block >= 2);
    }
    lemma_founded(w, parent, node, block);
    assert forall|other: NodeId|
        valid_node(other) && other != parent && other != node implies #[trigger] node_kept(
        v,
        w,
        other,
    ) by {
        assert(node_kept(v, v3, other));
        assert(node_kept(v3, w, other));
    }
    assert forall|b: u32| #[trigger] ownable(v, b) && b != block implies w.blocks[b as int]
        == v.blocks[b as int] by {
        assert(ownable(v3, b));
    }
}

/// Creating a directory puts an entry for it into its parent, where it is found from then on, and
/// changes nothing else but the number of links to the parent. The directory holds no named
/// entry, and neither its node nor its block was in use.
#[verifier::rlimit(40)]
pub proof fn law_a_new_directory_is_found(v: Volume, parent: NodeId, name: Seq<u8>)
    requires
        healthy_dir(v, parent),
        file_len(v, parent) % (BLOCK_BYTES as int) == 0,
        name_check(name) is Ok,
        !dot_name(name),
    ensures
        create_dir_step(v, parent, name).result matches Ok(node) ==> {
            let w = create_dir_step(v, parent, name).volume;
            &&& gained(v, parent, Entry { node, name: Some(name), kind: NodeKind::Directory }, w)
            &&& finds(w, parent, name, node)
            &&& healthy_dir(w, node)
            &&& file_len(w, node) % (BLOCK_BYTES as int) == 0
            &&& entries(w, node) == own_entries(node, parent)
            &&& forall|c: int|
                #[trigger] owns(file_layout(w, node), c) ==> !marked(bitmap_of(v), c) && !owns(
                    file_layout(w, parent),
                    c,
                )
        },
{
    if let Ok(node) = create_dir_step(v, parent, name).result {
        let w = create_dir_step(v, parent, name).volume;
        lemma_require_absent(v, parent, name);
        let v1 = require_absent_step(v, parent, name).volume;
        lemma_reread(v, v1, parent);
        lemma_claim_inode(v1, parent);
        let v2 = claim_inode_step(v1).volume;
        let number = claim_inode_step(v1).result->Ok_0;
        assert(node == NodeId(number));
        law_claim_takes_a_free_block(v2);
        lemma_claim_marks(v2);
        let v3 = claim_block_step(v2).volume;
        let block = claim_block_step(v2).result->Ok_0;
        let m = v.geometry.inode_bitmap;
        assert(v.geometry.structural(m) && !accounting(v, m as int));
        assert(v3.blocks[m as int] == v2.blocks[m as int]);
        assert forall|other: NodeId| valid_node(other) && other != node implies #[trigger] node_kept(
            v1,
            v3,
            other,
        ) by {
            assert(node_kept(v1, v2, other));
            let o = table_block(v.geometry, other);
            assert(v.geometry.structural(o) && !accounting(v, o as int));
            assert(v3.blocks[o as int] == v2.blocks[o as int]);
        }
        assert forall|b: u32| #[trigger] ownable(v1, b) implies v3.blocks[b as int]
            == v1.blocks[b as int] by {
            assert(!accounting(v, b as int));
            assert(v3.blocks[b as int] == v2.blocks[b as int]);
        }
        lemma_kept_by(v1, v3, parent, node);
        assert(!owns(file_layout(v3, parent), block as int)) by {
            if owns(file_layout(v, parent), block as int) {
                lemma_owned(v, file_layout(v, parent), block as int);
            }
        }
        assert(node != parent);
        assert forall|i: int| 0 <= i < entries(v3, parent).len() implies (#[trigger] entries(
            v3,
            parent,
        )[i]).node.0 != number by {
            assert(in_use(v, entries(v, parent)[i].node, entries(v, parent)[i].kind));
        }
        lemma_found_directory(v3, parent, number, block);
        let v4 = found_directory_step(v3, parent, number, block).volume;
        let new = NewEntry { node: number, file_type: type_of(NodeKind::Directory), name };
        lemma_insert(v4, parent, new);
        let entry = named_entry(number, type_of(NodeKind::Directory), name);
        assert(entered(v4, parent, entry, w));
        assert forall|other: NodeId|
            valid_node(other) && other != parent && other != node implies #[trigger] node_kept(
            v,
            w,
            other,
        ) by {
            assert(node_kept(v1, v3, other));
            assert(node_kept(v3, v4, other));
            assert(node_kept(v4, w, other));
        }
        assert forall|b: u32|
            #[trigger] ownable(v, b) && !owns(file_layout(v, parent), b as int) implies w.blocks[
        b as int] == v.blocks[b as int] && !owns(file_layout(w, parent), b as int) by {
            assert(ownable(v1, b));
            assert(ownable(v3, b));
            assert(b != block);
            assert(ownable(v4, b));
        }
        assert(marks_grow(v, w));
        law_lookup_gives_the_entry(w, parent, name);
        lemma_find_inserted(entries(v4, parent), entry, entries(w, parent), name);
        assert(node_kept(v4, w, node));
        let theirs = file_layout(v4, node);
        assert forall|b: int| 0 <= b < PROFILE_BLOCKS && #[trigger] owns(theirs, b) implies w.blocks[b]
            == v4.blocks[b] && marked(bitmap_of(w), b) by {
            lemma_owned(v4, theirs, b);
            assert(b == block);
            assert(ownable(v4, block));
        }
        assert(all_in_use(w, entries(v4, node))) by {
            assert(in_use(v4, node, NodeKind::Directory));
            assert(in_use(w, node, NodeKind::Directory));
            assert(in_use(w, parent, NodeKind::Directory));
        }
        lemma_directory_alike(v4, w, node);
    }
}

/// Creating a file or a directory spares the other files: they hold what they held.
pub proof fn law_creating_spares_other_files(
    v: Volume,
    parent: NodeId,
    name: Seq<u8>,
    other: NodeId,
)
    requires
        healthy_dir(v, parent),
        file_len(v, parent) % (BLOCK_BYTES as int) == 0,
        name_check(name) is Ok,
        !dot_name(name),
        healthy_file(v, other),
        in_use(v, other, NodeKind::Regular),
        apart(file_layout(v, other), file_layout(v, parent)),
    ensures
        create_file_step(v, parent, name).result is Ok ==> {
            let w = create_file_step(v, parent, name).volume;
            healthy_file(w, other) && contents(w, other) == contents(v, other)
        },
        create_dir_step(v, parent, name).result is Ok ==> {
            let w = create_dir_step(v, parent, name).volume;
            healthy_file(w, other) && contents(w, other) == contents(v, other)
        },
{
    law_a_new_file_is_found(v, parent, name);
    law_a_new_directory_is_found(v, parent, name);
    let layout = file_layout(v, other);
    if let Ok(node) = create_file_step(v, parent, name).result {
        let w = create_file_step(v, parent, name).volume;
        assert(node_kept(v, w, other));
        assert forall|b: int| 0 <= b < PROFILE_BLOCKS && #[trigger] owns(layout, b) implies w.blocks[b]
            == v.blocks[b] && marked(bitmap_of(w), b) by {
            lemma_apart_kept(v, w, layout, parent, b);
        }
        lemma_file_kept(v, w, other);
    }
    if let Ok(node) = create_dir_step(v, parent, name).result {
        let w = create_dir_step(v, parent, name).volume;
        assert(node_kept(v, w, other));
        assert forall|b: int| 0 <= b < PROFILE_BLOCKS && #[trigger] owns(layout, b) implies w.blocks[b]
            == v.blocks[b] && marked(bitmap_of(w), b) by {
            lemma_apart_kept(v, w, layout, parent, b);
        }
        lemma_file_kept(v, w, other);
    }
}

} // verus!
