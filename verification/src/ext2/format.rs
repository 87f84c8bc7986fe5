//! The disk as others read it: what the bytes of inodes, indirect blocks, directories and bitmaps
//! mean, told by their places alone.
use vstd::prelude::*;

use crate::fs::NodeId;

use super::contents::{
    contents, file_layout, file_len, file_record, healthy_file, law_truncate_sets_the_length,
    law_write_changes_the_contents, lemma_write_at,
};
use super::inode::{
    data_pointer, lesser, load_block_step, load_step, read_at_step, read_from, resolve_step,
    valid_node,
};
use super::mutation::{indirect_bytes, truncate_step, write_at_step};
use super::volume::{answering, Volume};
use super::Ext2Error;

verus! {

/// The number in four bytes, least significant first.
pub open spec fn number(bytes: Seq<u8>, at: int) -> int {
    bytes[at] + 0x100 * bytes[at + 1] + 0x1_0000 * bytes[at + 2] + 0x100_0000 * bytes[at + 3]
}

/// The number in two bytes, least significant first.
pub open spec fn short_number(bytes: Seq<u8>, at: int) -> int {
    bytes[at] + 0x100 * bytes[at + 1]
}

/// The 256 bytes of an inode: inodes count from one, and sixteen of them fill a block of the table.
pub open spec fn inode_bytes(v: Volume, node: NodeId) -> Seq<u8> {
    let table = v.blocks[v.geometry.inode_table + (node.0 - 1) / 16];
    let at = 256 * ((node.0 - 1) % 16);
    table.subrange(at, at + 256)
}

/// The number of bytes that an inode says its file has.
pub open spec fn size_on_disk(v: Volume, node: NodeId) -> int {
    number(inode_bytes(v, node), 4)
}

/// The block that holds a part of a file, zero for none: the first twelve are named by the inode
/// from its byte 40 on, four bytes each, and the others by the block that the inode names in its
/// bytes 88 to 91, again four bytes each and in their order.
pub open spec fn block_on_disk(v: Volume, node: NodeId, part: int) -> int {
    let inode = inode_bytes(v, node);
    if part < 12 {
        number(inode, 40 + 4 * part)
    } else if number(inode, 88) == 0 {
        0
    } else {
        number(v.blocks[number(inode, 88)], 4 * (part - 12))
    }
}

/// A byte of a file: it lies in the block for its part of 4096 bytes; where there is none, it is
/// zero.
pub open spec fn byte_on_disk(v: Volume, node: NodeId, i: int) -> u8 {
    let block = block_on_disk(v, node, i / 4096);
    if block == 0 {
        0
    } else {
        v.blocks[block][i % 4096]
    }
}

/// A byte of a file is on the disk: its part has a block, which holds it.
pub open spec fn is_on_disk(v: Volume, node: NodeId, i: int, byte: u8) -> bool {
    let block = block_on_disk(v, node, i / 4096);
    block != 0 && v.blocks[block][i % 4096] == byte
}

/// A file lies where the bytes of its inode and of its indirect block say, and has the length that
/// the inode says.
pub proof fn law_files_lie_where_the_disk_says(v: Volume, node: NodeId, part: int)
    requires
        v.wf(),
        valid_node(node),
        0 <= part < 1036,
    ensures
        file_record(v, node) == inode_bytes(v, node),
        file_layout(v, node).data.len() == 1036,
        file_layout(v, node).data[part] == block_on_disk(v, node, part),
        file_layout(v, node).indirect == number(inode_bytes(v, node), 88),
        healthy_file(v, node) ==> file_len(v, node) == size_on_disk(v, node),
{
}

/// A part of a file is found in the block that the bytes on the disk name. Where they name none, or
/// one of the file system's own, that is an error.
pub proof fn law_parts_are_found_where_the_disk_says(v: Volume, node: NodeId, part: int)
    requires
        v.wf(),
        valid_node(node),
        answering(v),
        0 <= part < 1036,
        part >= 12 ==> data_pointer(
            v.geometry,
            number(inode_bytes(v, node), 88) as u32,
        ) is Ok && number(inode_bytes(v, node), 88) < 32768,
    ensures
        ({
            let block = block_on_disk(v, node, part);
            let found = resolve_step(v, inode_bytes(v, node), part).result;
            if block == 0 {
                found == Err::<u32, _>(Ext2Error::SparseFile)
            } else if v.geometry.structural(block as u32) {
                found is Err
            } else {
                found matches Ok(b) && b == block
            }
        }),
{
}

/// What a read gave is on the disk, in its place.
proof fn lemma_read(
    v: Volume,
    u: Volume,
    node: NodeId,
    offset: int,
    copied: int,
    length: int,
    dst: Seq<u8>,
)
    requires
        v.wf(),
        valid_node(node),
        u.blocks == v.blocks,
        u.geometry == v.geometry,
        0 <= offset,
        0 <= copied <= length <= dst.len(),
    ensures
        ({
            let (s, d) = read_from(u, inode_bytes(v, node), offset, copied, length, dst);
            &&& d.len() == dst.len()
            &&& s.result is Ok ==> (forall|k: int|
                copied <= k < length ==> is_on_disk(v, node, offset + k, #[trigger] d[k]))
            &&& s.result is Ok ==> (forall|k: int|
                0 <= k < copied || length <= k < dst.len() ==> #[trigger] d[k] == dst[k])
        }),
    decreases length - copied,
{
    let record = inode_bytes(v, node);
    if copied < length {
        let position = offset + copied;
        let within = position % 4096;
        let count = lesser(length - copied, 4096 - within);
        let part = position / 4096;
        let s = load_block_step(u, record, part);
        if let Ok(data) = s.result {
            let found = resolve_step(u, record, part);
            assert(found.result->Ok_0 == block_on_disk(v, node, part));
            assert(data == v.blocks[block_on_disk(v, node, part)]);
            let next = crate::bytes::splice(dst, copied, data.subrange(within, within + count));
            lemma_read(v, s.volume, node, offset, copied + count, length, next);
            let (t, d) = read_from(s.volume, record, offset, copied + count, length, next);
            let block = block_on_disk(v, node, part);
            assert(block != 0);
            if t.result is Ok {
                assert forall|k: int| copied <= k < length implies is_on_disk(
                    v,
                    node,
                    offset + k,
                    #[trigger] d[k],
                ) by {
                    if k < copied + count {
                        assert(d[k] == next[k]);
                        let i = offset + k;
                        let at = within + (k - copied);
                        assert(position == 4096 * part + within);
                        assert(i == 4096 * part + at && 0 <= at < 4096);
                        assert(i / 4096 == part && i % 4096 == at);
                        assert(next[k] == data[at]);
                    }
                }
                assert forall|k: int| 0 <= k < copied || length <= k < dst.len() implies
                    #[trigger] d[k] == dst[k] by {
                    assert(d[k] == next[k]);
                }
            }
        }
    }
}

/// A read that succeeds gives the bytes that are on the disk for the file: as many as the inode says
/// that there are and the buffer takes. The rest of the buffer stays.
pub proof fn law_a_read_gives_what_is_on_the_disk(
    v: Volume,
    node: NodeId,
    offset: u64,
    dst: Seq<u8>,
)
    requires
        v.wf(),
        dst.len() <= usize::MAX,
        read_at_step(v, node, offset, dst).0.result is Ok,
    ensures
        ({
            let (s, d) = read_at_step(v, node, offset, dst);
            let n = s.result->Ok_0;
            &&& dst.len() > 0 ==> n == (if offset >= size_on_disk(v, node) {
                0
            } else {
                lesser(size_on_disk(v, node) - offset, dst.len() as int)
            })
            &&& dst.len() == 0 ==> n == 0
            &&& d.len() == dst.len()
            &&& forall|k: int|
                0 <= k < n ==> is_on_disk(v, node, offset + k, #[trigger] d[k])
            &&& forall|k: int| n <= k < dst.len() ==> #[trigger] d[k] == dst[k]
        }),
{
    if dst.len() > 0 {
        let u = load_step(v, node).volume;
        assert(valid_node(node));
        assert(file_record(v, node) == inode_bytes(v, node));
        assert(load_step(v, node).result->Ok_0 == inode_bytes(v, node));
        if offset < size_on_disk(v, node) {
            let n = lesser(size_on_disk(v, node) - offset, dst.len() as int);
            lemma_read(v, u, node, offset as int, 0, n, dst);
        }
    }
}

/// What a file holds is what is on the disk.
pub proof fn law_the_contents_are_on_the_disk(v: Volume, node: NodeId)
    requires
        healthy_file(v, node),
    ensures
        contents(v, node).len() == size_on_disk(v, node),
        forall|i: int|
            0 <= i < size_on_disk(v, node) ==> #[trigger] contents(v, node)[i] == byte_on_disk(
                v,
                node,
                i,
            ),
{
    assert(file_record(v, node) == inode_bytes(v, node));
    assert forall|i: int| 0 <= i < size_on_disk(v, node) implies #[trigger] contents(v, node)[i]
        == byte_on_disk(v, node, i) by {
        law_files_lie_where_the_disk_says(v, node, i / 4096);
    }
}

/// A write that succeeds leaves the written bytes on the disk, where others find them, and the
/// file's other bytes as they were. The inode says the greater of the old length and the end of the
/// write, and no part of the file is without a block.
pub proof fn law_a_write_is_on_the_disk(v: Volume, node: NodeId, offset: u64, src: Seq<u8>)
    requires
        healthy_file(v, node),
        src.len() > 0,
        write_at_step(v, node, offset, src).result is Ok,
    ensures
        ({
            let w = write_at_step(v, node, offset, src).volume;
            let end = offset + src.len();
            &&& size_on_disk(w, node) == (if end > size_on_disk(v, node) {
                end
            } else {
                size_on_disk(v, node)
            })
            &&& forall|i: int|
                offset <= i < end ==> #[trigger] byte_on_disk(w, node, i) == src[i - offset]
            &&& forall|i: int|
                0 <= i < size_on_disk(v, node) && !(offset <= i < end) ==> #[trigger] byte_on_disk(
                    w,
                    node,
                    i,
                ) == byte_on_disk(v, node, i)
            &&& forall|i: int|
                size_on_disk(v, node) <= i < offset && block_on_disk(v, node, i / 4096) == 0
                    ==> #[trigger] byte_on_disk(w, node, i) == 0
            &&& forall|part: int|
                0 <= part && 4096 * part < size_on_disk(w, node) ==> #[trigger] block_on_disk(
                    w,
                    node,
                    part,
                ) != 0
        }),
{
    let w = write_at_step(v, node, offset, src).volume;
    let end = offset + src.len();
    law_write_changes_the_contents(v, node, offset, src);
    lemma_write_at(v, node, offset, src);
    law_the_contents_are_on_the_disk(v, node);
    law_the_contents_are_on_the_disk(w, node);
    assert forall|i: int| offset <= i < end implies #[trigger] byte_on_disk(w, node, i) == src[i
        - offset] by {
        assert(contents(w, node)[i] == src[i - offset]);
    }
    assert forall|i: int|
        0 <= i < size_on_disk(v, node) && !(offset <= i < end) implies #[trigger] byte_on_disk(
        w,
        node,
        i,
    ) == byte_on_disk(v, node, i) by {
        assert(contents(w, node)[i] == contents(v, node)[i]);
    }
    assert forall|part: int|
        0 <= part && 4096 * part < size_on_disk(w, node) implies #[trigger] block_on_disk(
        w,
        node,
        part,
    ) != 0 by {
        law_files_lie_where_the_disk_says(w, node, part);
        assert(file_layout(w, node).data[part] != 0);
    }
    let u = v.ticked();
    assert forall|i: int|
        size_on_disk(v, node) <= i < offset && block_on_disk(v, node, i / 4096) == 0
        implies #[trigger] byte_on_disk(w, node, i) == 0 by {
        let part = i / 4096;
        law_files_lie_where_the_disk_says(v, node, part);
        law_files_lie_where_the_disk_says(w, node, part);
        let before = file_layout(u, node).data;
        let after = file_layout(w, node).data;
        assert(before[part] == 0);
        assert(after[part] != 0);
        assert(w.blocks[after[part] as int] == super::contents::filled_block(
            u,
            before,
            after,
            offset as int,
            src,
            part,
        ));
    }
}

/// A change of length that succeeds is on the disk: the inode says the new length, what the file
/// keeps is where it was, and blocks that it gains hold zeros.
pub proof fn law_a_change_of_length_is_on_the_disk(v: Volume, node: NodeId, len: u64)
    requires
        healthy_file(v, node),
        truncate_step(v, node, len).result is Ok,
    ensures
        ({
            let w = truncate_step(v, node, len).volume;
            &&& size_on_disk(w, node) == len
            &&& forall|i: int|
                0 <= i < len && i < size_on_disk(v, node) ==> #[trigger] byte_on_disk(w, node, i)
                    == byte_on_disk(v, node, i)
            &&& forall|i: int|
                size_on_disk(v, node) <= i < len && block_on_disk(v, node, i / 4096) == 0
                    ==> #[trigger] byte_on_disk(w, node, i) == 0
        }),
{
    let w = truncate_step(v, node, len).volume;
    law_truncate_sets_the_length(v, node, len);
    law_the_contents_are_on_the_disk(v, node);
    law_the_contents_are_on_the_disk(w, node);
    assert forall|i: int|
        0 <= i < len && i < size_on_disk(v, node) implies #[trigger] byte_on_disk(w, node, i)
        == byte_on_disk(v, node, i) by {
        assert(contents(w, node)[i] == contents(v, node)[i]);
    }
    assert forall|i: int|
        size_on_disk(v, node) <= i < len && block_on_disk(v, node, i / 4096) == 0
        implies #[trigger] byte_on_disk(w, node, i) == 0 by {
        law_files_lie_where_the_disk_says(v, node, i / 4096);
        assert(contents(w, node)[i] == 0);
    }
}

/// An indirect block that is written names the blocks of the parts from the thirteenth on, four
/// bytes each and in their order.
pub proof fn law_indirect_blocks_keep_the_order(data: Seq<u32>, part: int)
    requires
        data.len() == 1036,
        12 <= part < 1036,
    ensures
        indirect_bytes(data).len() == 4096,
        number(indirect_bytes(data), 4 * (part - 12)) == data[part],
{
    let bytes = indirect_bytes(data);
    let at = 4 * (part - 12);
    let v = data[part];
    assert(at / 4 == part - 12 && at % 4 == 0);
    assert((at + 1) / 4 == part - 12 && (at + 1) % 4 == 1);
    assert((at + 2) / 4 == part - 12 && (at + 2) % 4 == 2);
    assert((at + 3) / 4 == part - 12 && (at + 3) % 4 == 3);
    let a = v / 256;
    let b = a / 256;
    assert(b == v / 65536);
    assert(b / 256 == v / 16777216);
}

} // verus!
