//! Directories, new inodes and bitmaps as others read them.
use vstd::prelude::*;

use crate::fs::{EntryView, NodeId, NodeKind};

use super::allocator::{claim_block_step, first_free_block, marked};
use super::contents::bitmap_of;
use super::directory::{
    block_limit, blocks_for, encoded, live, named, read_dir_step, record_at, scan_block,
    scan_blocks, Entry,
};
use super::format::{block_on_disk, inode_bytes, number, short_number, size_on_disk};
use super::inode::{load_block_step, load_step, metadata_of, resolve_step, valid_node};
use super::mutation::{new_directory_record, new_file_record};
use super::volume::Volume;
use super::{mount_step, MountMode};

verus! {

/// The entries that the records of a block name, from an offset on: a record is as long as its bytes
/// 4 and 5 say. Its first four bytes are the number of the node, zero for none; byte 6 is the length
/// of the name, which stands from byte 8 on; byte 7 is 1 for a file and 2 for a directory. The
/// entries for the directory itself and its parent are not listed.
pub open spec fn listed_on_disk(block: Seq<u8>, at: int, end: int) -> Seq<EntryView>
    decreases end - at,
{
    let length = short_number(block, at + 4);
    if at >= end || length <= 0 || at + length > end {
        Seq::empty()
    } else {
        let name = block.subrange(at + 8, at + 8 + block[at + 6]);
        let rest = listed_on_disk(block, at + length, end);
        if number(block, at) == 0 || name == seq![0x2eu8] || name == seq![0x2eu8, 0x2eu8] {
            rest
        } else {
            let kind = if block[at + 7] == 1 {
                NodeKind::Regular
            } else {
                NodeKind::Directory
            };
            seq![EntryView { name, node: NodeId(number(block, at) as u32), kind }] + rest
        }
    }
}

/// The entries of the parts of a directory from one on, in their order. The records of the last part
/// end where the directory does.
pub open spec fn all_listed_on_disk(v: Volume, dir: NodeId, part: int) -> Seq<EntryView>
    decreases size_on_disk(v, dir) + 4096 - 4096 * part,
{
    let size = size_on_disk(v, dir);
    if part < 0 || 4096 * part >= size {
        Seq::empty()
    } else {
        let end = if size - 4096 * part < 4096 {
            size - 4096 * part
        } else {
            4096
        };
        listed_on_disk(v.blocks[block_on_disk(v, dir, part)], 0, end) + all_listed_on_disk(
            v,
            dir,
            part + 1,
        )
    }
}

proof fn lemma_scanned(
    v: Volume,
    block: Seq<u8>,
    at: int,
    end: int,
    seen: Seq<Entry>,
)
    requires
        0 <= at,
        end <= block.len(),
    ensures
        scan_block(v, block, at, end, seen).result matches Ok(all) ==> named(all) == named(seen)
            + listed_on_disk(block, at, end),
    decreases end - at,
{
    if at < end {
        if let Ok(record) = record_at(block, at, end) {
            assert(record.length == short_number(block, at + 4));
            assert(record.inode == number(block, at));
            let next = at + record.length;
            match live(record) {
                Ok(None) => lemma_scanned(v, block, next, end, seen),
                Ok(Some(entry)) => {
                    let child = load_step(v, entry.node);
                    if child.result is Ok {
                        let more = seen.push(entry);
                        lemma_scanned(child.volume, block, next, end, more);
                        assert(more.drop_last() =~= seen);
                        let rest = listed_on_disk(block, next, end);
                        if let Some(name) = entry.name {
                            let view = EntryView { name, node: entry.node, kind: entry.kind };
                            assert(named(more) == named(seen).push(view));
                            assert(named(seen).push(view) + rest =~= named(seen) + (seq![view]
                                + rest));
                        }
                    }
                },
                Err(_) => {},
            }
        }
    } else {
        assert(named(seen) + Seq::<EntryView>::empty() =~= named(seen));
    }
}

proof fn lemma_all_scanned(v: Volume, u: Volume, dir: NodeId, part: int, seen: Seq<Entry>)
    requires
        v.wf(),
        valid_node(dir),
        u.blocks == v.blocks,
        u.geometry == v.geometry,
        0 <= part,
        metadata_of(inode_bytes(v, dir)) is Ok,
    ensures
        scan_blocks(u, inode_bytes(v, dir), part, seen).result matches Ok(all) ==> named(all)
            == named(seen) + all_listed_on_disk(v, dir, part),
    decreases blocks_for(size_on_disk(v, dir)) - part,
{
    let record = inode_bytes(v, dir);
    let len = metadata_of(record)->Ok_0.len as int;
    assert(len == size_on_disk(v, dir));
    if part < blocks_for(len) {
        let loaded = load_block_step(u, record, part);
        if let Ok(block) = loaded.result {
            let found = resolve_step(u, record, part);
            assert(found.result->Ok_0 == block_on_disk(v, dir, part));
            assert(block == v.blocks[block_on_disk(v, dir, part)]);
            assert(block.len() == 4096);
            let end = block_limit(len, part);
            assert(end == if len - 4096 * part < 4096 {
                len - 4096 * part
            } else {
                4096
            });
            lemma_scanned(loaded.volume, block, 0, end, seen);
            super::laws::lemma_scan_block_reads(loaded.volume, block, 0, end, seen);
            let scanned = scan_block(loaded.volume, block, 0, end, seen);
            if let Ok(more) = scanned.result {
                lemma_all_scanned(v, scanned.volume, dir, part + 1, more);
                let here = listed_on_disk(block, 0, end);
                let rest = all_listed_on_disk(v, dir, part + 1);
                assert(named(seen) + here + rest =~= named(seen) + (here + rest));
            }
        }
    } else {
        assert(named(seen) + Seq::<EntryView>::empty() =~= named(seen));
    }
}

/// A listing that succeeds gives the entries that the records on the disk name, in their order.
pub proof fn law_a_listing_gives_what_is_on_the_disk(v: Volume, dir: NodeId)
    requires
        v.wf(),
        read_dir_step(v, dir).result is Ok,
    ensures
        read_dir_step(v, dir).result->Ok_0 == all_listed_on_disk(v, dir, 0),
{
    let loaded = load_step(v, dir);
    assert(valid_node(dir));
    assert(loaded.result->Ok_0 == inode_bytes(v, dir));
    lemma_all_scanned(v, loaded.volume, dir, 0, Seq::empty());
    let all = scan_blocks(loaded.volume, inode_bytes(v, dir), 0, Seq::empty()).result->Ok_0;
    assert(named(Seq::<Entry>::empty()) + all_listed_on_disk(v, dir, 0) =~= all_listed_on_disk(
        v,
        dir,
        0,
    ));
}

/// The bytes of a record that is written: node, length, length of the name, type and name stand where
/// others read them, and the rest is zero.
pub proof fn law_records_are_written_as_they_are_read(
    node: u32,
    length: int,
    file_type: u8,
    name: Seq<u8>,
)
    requires
        name.len() <= 255,
        8 + name.len() <= length <= 65535,
    ensures
        ({
            let bytes = encoded(node, length, file_type, name);
            &&& bytes.len() == length
            &&& number(bytes, 0) == node
            &&& short_number(bytes, 4) == length
            &&& bytes[6] == name.len()
            &&& bytes[7] == file_type
            &&& bytes.subrange(8, 8int + name.len()) == name
            &&& forall|i: int| 8 + name.len() <= i < length ==> #[trigger] bytes[i] == 0
        }),
{
    reveal(encoded);
    let bytes = encoded(node, length, file_type, name);
    assert(bytes.subrange(8, 8int + name.len()) =~= name);
    let a = node / 256;
    let b = a / 256;
    assert(b == node / 65536);
    assert(b / 256 == node / 16777216);
}

/// The inode of a new file: a regular file that its owner may write and all may read, with one link,
/// no byte and no block.
pub proof fn law_new_files_are_regular_and_empty()
    ensures
        ({
            let inode = new_file_record();
            &&& inode.len() == 256
            &&& short_number(inode, 0) == 0x81A4
            &&& short_number(inode, 26) == 1
            &&& forall|i: int|
                0 <= i < 256 && !(0 <= i < 2) && !(26 <= i < 28) ==> #[trigger] inode[i] == 0
        }),
{
    let inode = new_file_record();
    assert(inode[0] == 0xA4 && inode[1] == 0x81);
    assert(inode[26] == 1 && inode[27] == 0);
}

/// The inode of a new directory: a directory with two links, one block of 4096 bytes, which are eight
/// sectors, and nothing else.
pub proof fn law_new_directories_have_one_block(block: u32)
    ensures
        ({
            let inode = new_directory_record(block);
            &&& inode.len() == 256
            &&& short_number(inode, 0) == 0x41ED
            &&& short_number(inode, 26) == 2
            &&& number(inode, 4) == 4096
            &&& number(inode, 28) == 8
            &&& number(inode, 40) == block
            &&& forall|i: int|
                0 <= i < 256 && !(0 <= i < 2) && !(4 <= i < 8) && !(26 <= i < 32) && !(40 <= i < 44)
                    ==> #[trigger] inode[i] == 0
        }),
{
    let inode = new_directory_record(block);
    assert(inode[0] == 0xED && inode[1] == 0x41);
    assert(inode[26] == 2 && inode[27] == 0);
    assert(inode[4] == 0 && inode[5] == 0x10 && inode[6] == 0 && inode[7] == 0);
    assert(inode[28] == 8 && inode[29] == 0 && inode[30] == 0 && inode[31] == 0);
    let a = block / 256;
    let b = a / 256;
    assert(b == block / 65536);
    assert(b / 256 == block / 16777216);
}

/// The bitmap has a bit for each number: those of a byte from the lowest on.
pub proof fn law_marks_are_bits(bitmap: Seq<u8>, n: int)
    requires
        0 <= n < 8 * bitmap.len(),
    ensures
        n % 8 == 0 ==> marked(bitmap, n) == (bitmap[n / 8] % 2 == 1),
        n % 8 == 1 ==> marked(bitmap, n) == (bitmap[n / 8] / 2 % 2 == 1),
        n % 8 == 2 ==> marked(bitmap, n) == (bitmap[n / 8] / 4 % 2 == 1),
        n % 8 == 3 ==> marked(bitmap, n) == (bitmap[n / 8] / 8 % 2 == 1),
        n % 8 == 4 ==> marked(bitmap, n) == (bitmap[n / 8] / 16 % 2 == 1),
        n % 8 == 5 ==> marked(bitmap, n) == (bitmap[n / 8] / 32 % 2 == 1),
        n % 8 == 6 ==> marked(bitmap, n) == (bitmap[n / 8] / 64 % 2 == 1),
        n % 8 == 7 ==> marked(bitmap, n) == (bitmap[n / 8] / 128 % 2 == 1),
{
    let b = bitmap[n / 8];
    assert((b >> 0u8) & 1 == b % 2 && (b >> 1u8) & 1 == b / 2 % 2 && (b >> 2u8) & 1 == b / 4 % 2
        && (b >> 3u8) & 1 == b / 8 % 2 && (b >> 4u8) & 1 == b / 16 % 2 && (b >> 5u8) & 1 == b / 32
        % 2 && (b >> 6u8) & 1 == b / 64 % 2 && (b >> 7u8) & 1 == b / 128 % 2) by (bit_vector);
}

proof fn lemma_first_block(v: Volume, from: int)
    requires
        0 <= from <= 32768,
    ensures
        first_free_block(bitmap_of(v), v.geometry, from) matches Some(b) ==> from <= b < 32768
            && forall|c: u32|
            from <= c < b ==> marked(bitmap_of(v), c as int) || #[trigger] v.geometry.structural(c),
        first_free_block(bitmap_of(v), v.geometry, from) is None ==> forall|c: u32|
            from <= c < 32768 ==> marked(bitmap_of(v), c as int)
                || #[trigger] v.geometry.structural(c),
    decreases 32768 - from,
{
    if from < 32768 {
        lemma_first_block(v, from + 1);
    }
}

/// The block that is claimed is the first that can be: all before it are in use or the file system's
/// own. Where all are, there is no space.
pub proof fn law_the_first_free_block_is_claimed(v: Volume)
    requires
        v.wf(),
    ensures
        claim_block_step(v).result matches Ok(b) ==> forall|c: u32|
            c < b ==> marked(bitmap_of(v), c as int) || #[trigger] v.geometry.structural(c),
        claim_block_step(v).result == Err::<u32, _>(super::Ext2Error::NoSpace) ==> forall|c: u32|
            c < 32768 ==> marked(bitmap_of(v), c as int) || #[trigger] v.geometry.structural(c),
{
    reveal(claim_block_step);
    reveal(super::allocator::mark_step);
    reveal(super::allocator::adjust_counts_step);
    lemma_first_block(v, 0);
}

/// A mounted file system lies where its group descriptor says: the bitmap of blocks, the bitmap of
/// inodes and the table of inodes are named by its first twelve bytes. The superblock has the magic
/// number, blocks of 4096 bytes and inodes of 256.
pub proof fn law_a_mount_reads_the_layout(disk: crate::block::Disk, mode: MountMode)
    requires
        disk.bytes.len() >= 32768 * 4096,
    ensures
        mount_step(disk, mode) matches Ok(v) ==> {
            let superblock = disk.bytes.subrange(1024, 2048);
            let group = disk.bytes.subrange(4096, 8192);
            &&& v.geometry.block_bitmap == number(group, 0)
            &&& v.geometry.inode_bitmap == number(group, 4)
            &&& v.geometry.inode_table == number(group, 8)
            &&& v.geometry.inode_table_blocks == 256
            &&& short_number(superblock, 56) == 0xEF53
            &&& number(superblock, 24) == 2
            &&& short_number(superblock, 88) == 256
            &&& number(superblock, 0) == 4096
            &&& number(superblock, 4) == 32768
        },
{
    let first = disk.bytes.subrange(0, 4096);
    let superblock = disk.bytes.subrange(1024, 2048);
    assert forall|i: int| 0 <= i < 1024 implies #[trigger] superblock[i] == first[1024 + i] by {}
    let group = disk.bytes.subrange(4096, 8192);
    let v = super::volume_on(disk, super::unread_geometry(), super::MountHealth::ReadOnly);
    assert(v.blocks[0] =~= first);
    assert(v.blocks[1] =~= group);
}

} // verus!
