//! What a block of directory records holds, and what changes keep of it.
use vstd::prelude::*;

use crate::bytes::{
    le16, lemma_le16_written, lemma_le32_of, lemma_le32_written, splice, to_le16, to_le32, zeros,
};
use crate::fs::{name_check, NodeId};

use super::allocator::PROFILE_INODES;
use super::directory::{
    behind, dot_name, encoded, in_place, kind_of, live, placed, record_at, record_bytes, without,
    Entry, Record,
};
use super::on_disk::{BLOCK_BYTES, DIRECTORY_INODE, DIRECTORY_NAME, DIRECTORY_RECORD_LENGTH};
use super::Ext2Error;

verus! {

/// The live entries of a block's records from `offset` to `limit`, or none where a record is
/// damaged.
pub open spec fn entries_of(block: Seq<u8>, offset: int, limit: int) -> Option<Seq<Entry>>
    decreases limit - offset,
{
    if offset >= limit {
        Some(Seq::empty())
    } else {
        match record_at(block, offset, limit) {
            Err(_) => None,
            Ok(record) => if record.length <= 0 {
                None
            } else {
                match (live(record), entries_of(block, offset + record.length, limit)) {
                    (Ok(None), Some(rest)) => Some(rest),
                    (Ok(Some(entry)), Some(rest)) => Some(seq![entry] + rest),
                    _ => None,
                }
            },
        }
    }
}

/// Records that are the same bytes are the same.
proof fn lemma_same_entries(a: Seq<u8>, b: Seq<u8>, offset: int, limit: int)
    requires
        0 <= offset,
        limit <= a.len(),
        a.len() == b.len(),
        forall|i: int| offset <= i < limit ==> a[i] == b[i],
    ensures
        record_at(a, offset, limit) == record_at(b, offset, limit),
        entries_of(a, offset, limit) == entries_of(b, offset, limit),
    decreases limit - offset,
{
    if offset + DIRECTORY_NAME <= limit {
        let length = le16(a, offset + DIRECTORY_RECORD_LENGTH) as int;
        assert(length == le16(b, offset + DIRECTORY_RECORD_LENGTH));
        if let (Ok(x), Ok(y)) = (record_at(a, offset, limit), record_at(b, offset, limit)) {
            assert(x.name =~= y.name);
        }
        if 0 < length <= limit - offset {
            lemma_same_entries(a, b, offset + length, limit);
        }
    }
}

/// A record whose bytes are kept is kept, whatever follows it.
proof fn lemma_record_kept(a: Seq<u8>, b: Seq<u8>, offset: int, limit: int)
    requires
        0 <= offset,
        limit <= a.len(),
        a.len() == b.len(),
        record_at(a, offset, limit) is Ok,
        forall|i: int|
            offset <= i < offset + record_at(a, offset, limit)->Ok_0.length ==> a[i] == b[i],
    ensures
        record_at(b, offset, limit) == record_at(a, offset, limit),
{
    let x = record_at(a, offset, limit)->Ok_0;
    if let Ok(y) = record_at(b, offset, limit) {
        assert(x.name =~= y.name);
    }
}

/// Where the parts of an encoded record stand.
pub(crate) proof fn lemma_encoded_parts(node: u32, length: int, file_type: u8, name: Seq<u8>)
    requires
        DIRECTORY_NAME + name.len() <= length,
    ensures
        ({
            let e = encoded(node, length, file_type, name);
            &&& e.len() == length
            &&& e.subrange(0, 4) == to_le32(node)
            &&& e.subrange(4, 6) == to_le16(length as u16)
            &&& e[6] == name.len() as u8
            &&& e[7] == file_type
            &&& e.subrange(8, DIRECTORY_NAME + name.len()) == name
        }),
{
    reveal(encoded);
    let a = to_le32(node);
    let b = to_le16(length as u16);
    let c = seq![name.len() as u8, file_type];
    let z = zeros((length - DIRECTORY_NAME - name.len()) as nat);
    let e = encoded(node, length, file_type, name);
    assert(e == a + b + c + name + z);
    assert(e.subrange(0, 4) =~= a);
    assert(e.subrange(4, 6) =~= b);
    assert(e[6] == c[0] && e[7] == c[1]);
    assert(e.subrange(8, DIRECTORY_NAME + name.len()) =~= name);
}

/// A record whose length was changed is otherwise the same.
proof fn lemma_resized(a: Seq<u8>, b: Seq<u8>, offset: int, limit: int, length: int)
    requires
        0 <= offset,
        limit <= a.len(),
        a.len() == b.len(),
        record_at(a, offset, limit) is Ok,
        DIRECTORY_NAME + record_at(a, offset, limit)->Ok_0.name.len() <= length <= limit - offset,
        length % 4 == 0,
        le16(b, offset + DIRECTORY_RECORD_LENGTH) == length,
        forall|i: int|
            offset <= i < offset + DIRECTORY_NAME + record_at(a, offset, limit)->Ok_0.name.len()
                && !(offset + 4 <= i < offset + 6) ==> #[trigger] b[i] == a[i],
    ensures
        record_at(b, offset, limit) == Ok::<Record, Ext2Error>(
            Record { length, ..record_at(a, offset, limit)->Ok_0 },
        ),
{
    let x = record_at(a, offset, limit)->Ok_0;
    assert(b[offset] == a[offset] && b[offset + 1] == a[offset + 1] && b[offset + 2] == a[offset
        + 2] && b[offset + 3] == a[offset + 3]);
    assert(b[offset + 6] == a[offset + 6] && b[offset + 7] == a[offset + 7]);
    assert(record_at(b, offset, limit) is Ok);
    assert(record_at(b, offset, limit)->Ok_0.name =~= x.name);
}

/// What was encoded is read back, also where the length was changed afterwards.
pub(crate) proof fn lemma_encoded(
    a: Seq<u8>,
    offset: int,
    limit: int,
    node: u32,
    length: int,
    file_type: u8,
    name: Seq<u8>,
    actual: int,
)
    requires
        0 <= offset,
        limit <= a.len(),
        name.len() <= 255,
        DIRECTORY_NAME + name.len() <= length <= actual,
        actual % 4 == 0,
        offset + actual <= limit,
        le16(a, offset + DIRECTORY_RECORD_LENGTH) == actual,
        forall|i: int|
            offset <= i < offset + length && !(offset + 4 <= i < offset + 6) ==> #[trigger] a[i]
                == encoded(node, length, file_type, name)[i - offset],
    ensures
        record_at(a, offset, limit) == Ok::<Record, Ext2Error>(
            Record { inode: node, length: actual, file_type, name },
        ),
{
    let e = encoded(node, length, file_type, name);
    lemma_encoded_parts(node, length, file_type, name);
    let n = e.subrange(0, 4);
    assert(e[0] == n[0] && e[1] == n[1] && e[2] == n[2] && e[3] == n[3]);
    assert(a[offset] == e[0] && a[offset + 1] == e[1] && a[offset + 2] == e[2] && a[offset + 3]
        == e[3]);
    lemma_le32_of(a, offset, node);
    assert(a[offset + 6] == e[6] && a[offset + 7] == e[7]);
    let m = e.subrange(8, DIRECTORY_NAME + name.len());
    assert forall|i: int| 0 <= i < name.len() implies a[offset + DIRECTORY_NAME + i] == name[i] by {
        assert(m[i] == e[8 + i]);
        assert(a[offset + DIRECTORY_NAME + i] == e[8 + i]);
    }
    assert(a.subrange(offset + DIRECTORY_NAME, offset + DIRECTORY_NAME + name.len()) =~= name);
}

/// An entry with a name.
pub open spec fn named_entry(node: u32, file_type: u8, name: Seq<u8>) -> Entry {
    Entry { node: NodeId(node), name: Some(name), kind: kind_of(file_type)->0 }
}

/// What can be put into a directory as a named entry.
pub open spec fn insertable(node: u32, file_type: u8, name: Seq<u8>) -> bool {
    &&& 2 <= node <= PROFILE_INODES
    &&& kind_of(file_type) is Some
    &&& name_check(name) is Ok
    &&& !dot_name(name)
}

/// The entries are those of before and one more.
pub open spec fn inserted(before: Seq<Entry>, entry: Entry, after: Seq<Entry>) -> bool {
    exists|k: int| 0 <= k <= before.len() && after == #[trigger] before.insert(k, entry)
}

#[verifier::rlimit(30)]
proof fn lemma_behind(
    block: Seq<u8>,
    offset: int,
    limit: int,
    node: u32,
    file_type: u8,
    name: Seq<u8>,
    rest: Seq<Entry>,
)
    requires
        block.len() == BLOCK_BYTES,
        0 <= offset < limit <= BLOCK_BYTES,
        insertable(node, file_type, name),
        record_at(block, offset, limit) is Ok,
        ({
            let record = record_at(block, offset, limit)->Ok_0;
            &&& live(record) is Ok
            &&& live(record)->Ok_0 is Some
            &&& record.length - record_bytes(record.name.len() as int) >= record_bytes(
                name.len() as int,
            )
            &&& entries_of(block, offset + record.length, limit) == Some(rest)
        }),
    ensures
        ({
            let record = record_at(block, offset, limit)->Ok_0;
            let used = record_bytes(record.name.len() as int);
            let after = behind(block, offset, used, record.length, node, file_type, name);
            &&& after.len() == block.len()
            &&& forall|i: int|
                0 <= i < block.len() && !(offset <= i < offset + record.length)
                    ==> #[trigger] after[i] == block[i]
            &&& entries_of(after, offset, limit) == Some(
                seq![live(record)->Ok_0->0, named_entry(node, file_type, name)] + rest,
            )
        }),
{
    let record = record_at(block, offset, limit)->Ok_0;
    let used = record_bytes(record.name.len() as int);
    let length = record.length;
    let short = splice(block, offset + DIRECTORY_RECORD_LENGTH, to_le16(used as u16));
    let after = behind(block, offset, used, length, node, file_type, name);
    let new = named_entry(node, file_type, name);
    lemma_encoded_parts(node, length - used, file_type, name);
    lemma_le16_written(block, offset + DIRECTORY_RECORD_LENGTH, used as u16);
    lemma_same_entries(block, after, offset + length, limit);
    lemma_encoded_entry(
        short,
        offset + used,
        limit,
        node,
        length - used,
        file_type,
        name,
        length - used,
        after,
    );
    assert(after[offset + 4] == short[offset + 4] && after[offset + 5] == short[offset + 5]);
    lemma_resized(block, after, offset, limit, used);
    assert(live(record_at(after, offset, limit)->Ok_0) == live(record));
    let head = live(record)->Ok_0->0;
    assert(seq![head] + (seq![new] + rest) =~= seq![head, new] + rest);
}

/// A deleted record is skipped.
proof fn lemma_hole(block: Seq<u8>, at: int, limit: int, left: int)
    requires
        block.len() == BLOCK_BYTES,
        0 <= at,
        DIRECTORY_NAME <= left,
        left % 4 == 0,
        at + left <= limit <= BLOCK_BYTES,
    ensures
        ({
            let hole = to_le32(0) + to_le16(left as u16) + seq![0u8, 0u8];
            let after = splice(block, at, hole);
            &&& hole.len() == DIRECTORY_NAME
            &&& entries_of(after, at, limit) == entries_of(after, at + left, limit)
        }),
{
    let hole = to_le32(0) + to_le16(left as u16) + seq![0u8, 0u8];
    let after = splice(block, at, hole);
    assert(hole[0] == to_le32(0)[0] && hole[1] == to_le32(0)[1] && hole[2] == to_le32(0)[2]
        && hole[3] == to_le32(0)[3]);
    assert(hole[4] == to_le16(left as u16)[0] && hole[5] == to_le16(left as u16)[1] && hole[6]
        == 0);
    assert(after[at] == hole[0] && after[at + 1] == hole[1] && after[at + 2] == hole[2]
        && after[at + 3] == hole[3] && after[at + 4] == hole[4] && after[at + 5] == hole[5]
        && after[at + 6] == hole[6]);
    lemma_le32_of(after, at, 0);
    assert(le16(after, at + DIRECTORY_RECORD_LENGTH) == left);
    assert(record_at(after, at, limit) is Ok);
    let record = record_at(after, at, limit)->Ok_0;
    assert(record.length == left && record.inode == 0);
}

/// An encoded record is an entry, and those behind it follow.
proof fn lemma_encoded_entry(
    block: Seq<u8>,
    offset: int,
    limit: int,
    node: u32,
    length: int,
    file_type: u8,
    name: Seq<u8>,
    actual: int,
    after: Seq<u8>,
)
    requires
        block.len() == BLOCK_BYTES,
        after.len() == BLOCK_BYTES,
        0 <= offset,
        limit <= BLOCK_BYTES,
        insertable(node, file_type, name),
        DIRECTORY_NAME + name.len() <= length <= actual,
        actual % 4 == 0,
        offset + actual <= limit,
        actual == length ==> after[offset + 4] == splice(
            block,
            offset,
            encoded(node, length, file_type, name),
        )[offset + 4] && after[offset + 5] == splice(
            block,
            offset,
            encoded(node, length, file_type, name),
        )[offset + 5],
        actual > length ==> le16(after, offset + DIRECTORY_RECORD_LENGTH) == actual,
        forall|i: int|
            offset <= i < offset + length && !(offset + 4 <= i < offset + 6) ==> #[trigger] after[i]
                == splice(block, offset, encoded(node, length, file_type, name))[i],
        entries_of(after, offset + actual, limit) is Some,
    ensures
        entries_of(after, offset, limit) == Some(
            seq![named_entry(node, file_type, name)] + entries_of(after, offset + actual, limit)->0,
        ),
{
    let new = encoded(node, length, file_type, name);
    lemma_encoded_parts(node, length, file_type, name);
    if actual == length {
        let part = new.subrange(4, 6);
        assert(part[0] == new[4] && part[1] == new[5]);
        assert(after[offset + 4] == new[4] && after[offset + 5] == new[5]);
        assert(le16(after, offset + DIRECTORY_RECORD_LENGTH) == actual);
    }
    lemma_encoded(after, offset, limit, node, length, file_type, name, actual);
}

#[verifier::rlimit(30)]
proof fn lemma_in_place(
    block: Seq<u8>,
    offset: int,
    limit: int,
    node: u32,
    file_type: u8,
    name: Seq<u8>,
    rest: Seq<Entry>,
)
    requires
        block.len() == BLOCK_BYTES,
        0 <= offset < limit <= BLOCK_BYTES,
        insertable(node, file_type, name),
        record_at(block, offset, limit) is Ok,
        ({
            let record = record_at(block, offset, limit)->Ok_0;
            &&& record.length >= record_bytes(name.len() as int)
            &&& entries_of(block, offset + record.length, limit) == Some(rest)
        }),
    ensures
        ({
            let record = record_at(block, offset, limit)->Ok_0;
            let after = in_place(block, offset, record.length, node, file_type, name);
            &&& after.len() == block.len()
            &&& forall|i: int|
                0 <= i < block.len() && !(offset <= i < offset + record.length)
                    ==> #[trigger] after[i] == block[i]
            &&& entries_of(after, offset, limit) == Some(
                seq![named_entry(node, file_type, name)] + rest,
            )
        }),
{
    let record = record_at(block, offset, limit)->Ok_0;
    let length = record.length;
    let needed = record_bytes(name.len() as int);
    let left = length - needed;
    lemma_encoded_parts(node, needed, file_type, name);
    let filled = splice(block, offset, encoded(node, needed, file_type, name));
    let after = in_place(block, offset, length, node, file_type, name);
    if left >= DIRECTORY_NAME {
        lemma_hole(filled, offset + needed, limit, left);
        lemma_same_entries(block, after, offset + length, limit);
        lemma_encoded_entry(block, offset, limit, node, needed, file_type, name, needed, after);
    } else if left > 0 {
        lemma_le16_written(filled, offset + DIRECTORY_RECORD_LENGTH, length as u16);
        lemma_same_entries(block, after, offset + length, limit);
        lemma_encoded_entry(block, offset, limit, node, needed, file_type, name, length, after);
    } else {
        lemma_same_entries(block, after, offset + length, limit);
        lemma_encoded_entry(block, offset, limit, node, needed, file_type, name, needed, after);
    }
}

#[verifier::rlimit(40)]
pub(crate) proof fn lemma_placed(
    block: Seq<u8>,
    offset: int,
    limit: int,
    node: u32,
    file_type: u8,
    name: Seq<u8>,
)
    requires
        block.len() == BLOCK_BYTES,
        0 <= offset,
        limit <= BLOCK_BYTES,
        insertable(node, file_type, name),
        entries_of(block, offset, limit) is Some,
    ensures
        placed(block, offset, limit, node, file_type, name) matches Some(after) ==> {
            &&& after.len() == block.len()
            &&& forall|i: int|
                0 <= i < block.len() && !(offset <= i < limit) ==> #[trigger] after[i] == block[i]
            &&& entries_of(after, offset, limit) is Some
            &&& inserted(
                entries_of(block, offset, limit)->0,
                named_entry(node, file_type, name),
                entries_of(after, offset, limit)->0,
            )
        },
    decreases limit - offset,
{
    if offset < limit {
        let record = record_at(block, offset, limit)->Ok_0;
        let next = offset + record.length;
        let rest = entries_of(block, next, limit)->0;
        let before = entries_of(block, offset, limit)->0;
        let new = named_entry(node, file_type, name);
        let needed = record_bytes(name.len() as int);
        let used = record_bytes(record.name.len() as int);
        if record.inode != 0 && record.length - used >= needed {
            lemma_behind(block, offset, limit, node, file_type, name, rest);
            let head = live(record)->Ok_0->0;
            assert(before == seq![head] + rest);
            assert(seq![head, new] + rest =~= before.insert(1, new));
        } else if record.inode == 0 && record.length >= needed {
            lemma_in_place(block, offset, limit, node, file_type, name, rest);
            assert(seq![new] + rest =~= before.insert(0, new));
        } else {
            lemma_placed(block, next, limit, node, file_type, name);
            if let Some(after) = placed(block, next, limit, node, file_type, name) {
                lemma_record_kept(block, after, offset, limit);
                let k = choose|k: int|
                    0 <= k <= rest.len() && entries_of(after, next, limit)->0
                        == #[trigger] rest.insert(k, new);
                if let Some(head) = live(record)->Ok_0 {
                    assert(seq![head] + rest.insert(k, new) =~= (seq![head] + rest).insert(
                        k + 1,
                        new,
                    ));
                } else {
                    assert(before == rest);
                }
            }
        }
    }
}

/// A block that an entry was put into holds the entries that it held and the new one.
pub proof fn law_an_entry_is_put_into_its_block(
    block: Seq<u8>,
    limit: int,
    node: u32,
    file_type: u8,
    name: Seq<u8>,
)
    requires
        block.len() == BLOCK_BYTES,
        0 <= limit <= BLOCK_BYTES,
        insertable(node, file_type, name),
        entries_of(block, 0, limit) is Some,
    ensures
        placed(block, 0, limit, node, file_type, name) matches Some(after) ==> after.len()
            == BLOCK_BYTES && entries_of(after, 0, limit) is Some && inserted(
            entries_of(block, 0, limit)->0,
            named_entry(node, file_type, name),
            entries_of(after, 0, limit)->0,
        ),
{
    lemma_placed(block, 0, limit, node, file_type, name);
}

/// No entry has the name.
pub open spec fn lacks(entries: Seq<Entry>, name: Seq<u8>) -> bool {
    forall|i: int| 0 <= i < entries.len() ==> (#[trigger] entries[i]).name != Some(name)
}

/// The entries are those of before without the first that has the name, which named `node`.
pub open spec fn taken_out(
    before: Seq<Entry>,
    name: Seq<u8>,
    node: NodeId,
    after: Seq<Entry>,
) -> bool {
    exists|k: int|
        0 <= k < before.len() && before[k].name == Some(name) && before[k].node == node && lacks(
            before.take(k),
            name,
        ) && after == #[trigger] before.remove(k)
}

/// Where the records that a removal may change start.
spec fn reach(previous: Option<int>, offset: int) -> int {
    match previous {
        Some(start) => start,
        None => offset,
    }
}

proof fn lemma_taken_behind(
    before: Seq<Entry>,
    name: Seq<u8>,
    node: NodeId,
    after: Seq<Entry>,
    head: Entry,
)
    requires
        taken_out(before, name, node, after),
        head.name != Some(name),
    ensures
        taken_out(seq![head] + before, name, node, seq![head] + after),
{
    let k = choose|k: int|
        0 <= k < before.len() && before[k].name == Some(name) && before[k].node == node && lacks(
            before.take(k),
            name,
        ) && after == #[trigger] before.remove(k);
    let all = seq![head] + before;
    assert(all[k + 1] == before[k]);
    assert(lacks(all.take(k + 1), name)) by {
        assert forall|i: int| 0 <= i < all.take(k + 1).len() implies (#[trigger] all.take(
            k + 1,
        )[i]).name != Some(name) by {
            if i > 0 {
                assert(all.take(k + 1)[i] == before.take(k)[i - 1]);
            }
        }
    }
    assert(seq![head] + after =~= all.remove(k + 1));
}

proof fn lemma_joined(block: Seq<u8>, start: int, offset: int, limit: int)
    requires
        block.len() == BLOCK_BYTES,
        0 <= start < offset < limit <= BLOCK_BYTES,
        record_at(block, start, limit) is Ok,
        record_at(block, start, limit)->Ok_0.length == offset - start,
        live(record_at(block, start, limit)->Ok_0) is Ok,
        record_at(block, offset, limit) is Ok,
        entries_of(block, offset + record_at(block, offset, limit)->Ok_0.length, limit) is Some,
    ensures
        ({
            let next = offset + record_at(block, offset, limit)->Ok_0.length;
            let rest = entries_of(block, next, limit)->0;
            let after = splice(
                block,
                start + DIRECTORY_RECORD_LENGTH,
                to_le16((next - start) as u16),
            );
            &&& after.len() == block.len()
            &&& forall|i: int|
                0 <= i < block.len() && !(start <= i < limit) ==> #[trigger] after[i] == block[i]
            &&& entries_of(after, start, limit) == Some(
                match live(record_at(block, start, limit)->Ok_0)->Ok_0 {
                    Some(head) => seq![head] + rest,
                    None => rest,
                },
            )
        }),
{
    let next = offset + record_at(block, offset, limit)->Ok_0.length;
    let size = (next - start) as u16;
    let after = splice(block, start + DIRECTORY_RECORD_LENGTH, to_le16(size));
    lemma_le16_written(block, start + DIRECTORY_RECORD_LENGTH, size);
    lemma_same_entries(block, after, next, limit);
    lemma_resized(block, after, start, limit, next - start);
    let head = record_at(block, start, limit)->Ok_0;
    assert(live(record_at(after, start, limit)->Ok_0) == live(head));
}

proof fn lemma_deleted(block: Seq<u8>, offset: int, limit: int)
    requires
        block.len() == BLOCK_BYTES,
        0 <= offset < limit <= BLOCK_BYTES,
        record_at(block, offset, limit) is Ok,
    ensures
        ({
            let next = offset + record_at(block, offset, limit)->Ok_0.length;
            let after = splice(block, offset + DIRECTORY_INODE, to_le32(0));
            &&& after.len() == block.len()
            &&& forall|i: int|
                0 <= i < block.len() && !(offset <= i < limit) ==> #[trigger] after[i] == block[i]
            &&& entries_of(after, offset, limit) == entries_of(block, next, limit)
        }),
{
    let next = offset + record_at(block, offset, limit)->Ok_0.length;
    let after = splice(block, offset + DIRECTORY_INODE, to_le32(0));
    lemma_le32_written(block, offset + DIRECTORY_INODE, 0);
    lemma_same_entries(block, after, next, limit);
    assert(record_at(after, offset, limit) is Ok);
    assert(record_at(after, offset, limit)->Ok_0.inode == 0);
    assert(record_at(after, offset, limit)->Ok_0.length == next - offset);
}

#[verifier::rlimit(40)]
proof fn lemma_without(
    block: Seq<u8>,
    previous: Option<int>,
    offset: int,
    limit: int,
    name: Seq<u8>,
)
    requires
        block.len() == BLOCK_BYTES,
        0 <= offset,
        limit <= BLOCK_BYTES,
        entries_of(block, offset, limit) is Some,
        previous matches Some(start) ==> {
            &&& 0 <= start < offset
            &&& record_at(block, start, limit) is Ok
            &&& record_at(block, start, limit)->Ok_0.length == offset - start
            &&& live(record_at(block, start, limit)->Ok_0) is Ok
            &&& live(record_at(block, start, limit)->Ok_0)->Ok_0 matches Some(head) ==> head.name
                != Some(name)
        },
    ensures
        match without(block, previous, offset, limit, name) {
            Err(_) => false,
            Ok(None) => lacks(entries_of(block, offset, limit)->0, name),
            Ok(Some((node, after))) => {
                let from = reach(previous, offset);
                &&& after.len() == block.len()
                &&& forall|i: int|
                    0 <= i < block.len() && !(from <= i < limit) ==> #[trigger] after[i] == block[i]
                &&& entries_of(block, from, limit) is Some
                &&& entries_of(after, from, limit) is Some
                &&& taken_out(
                    entries_of(block, from, limit)->0,
                    name,
                    node,
                    entries_of(after, from, limit)->0,
                )
            },
        },
    decreases limit - offset,
{
    if offset < limit {
        let record = record_at(block, offset, limit)->Ok_0;
        let next = offset + record.length;
        let here = entries_of(block, offset, limit)->0;
        let rest = entries_of(block, next, limit)->0;
        let entry = live(record)->Ok_0;
        if entry is Some && entry->0.name == Some(name) {
            assert(here == seq![entry->0] + rest);
            assert(here.remove(0) =~= rest);
            assert(lacks(here.take(0), name));
            assert(here[0] == entry->0);
            assert(taken_out(here, name, NodeId(record.inode), rest));
            match previous {
                Some(start) => {
                    lemma_joined(block, start, offset, limit);
                    if let Some(head) = live(record_at(block, start, limit)->Ok_0)->Ok_0 {
                        lemma_taken_behind(here, name, NodeId(record.inode), rest, head);
                    }
                },
                None => {
                    lemma_deleted(block, offset, limit);
                },
            }
        } else {
            lemma_without(block, Some(offset), next, limit, name);
            match without(block, Some(offset), next, limit, name) {
                Ok(Some((node, after))) => {
                    if let Some(start) = previous {
                        lemma_record_kept(block, after, start, limit);
                        if let Some(head) = live(record_at(block, start, limit)->Ok_0)->Ok_0 {
                            lemma_taken_behind(
                                here,
                                name,
                                node,
                                entries_of(after, offset, limit)->0,
                                head,
                            );
                        }
                    }
                },
                Ok(None) => {
                    if let Some(head) = entry {
                        assert forall|i: int| 0 <= i < here.len() implies (#[trigger] here[i]).name
                            != Some(name) by {
                            if i > 0 {
                                assert(here[i] == rest[i - 1]);
                            }
                        }
                    }
                },
                Err(_) => {},
            }
        }
    }
}

/// A block that an entry was removed from holds the entries that it held, without the first that
/// has the name. Where no entry has the name, none is removed.
pub proof fn law_an_entry_is_taken_out_of_its_block(block: Seq<u8>, limit: int, name: Seq<u8>)
    requires
        block.len() == BLOCK_BYTES,
        0 <= limit <= BLOCK_BYTES,
        entries_of(block, 0, limit) is Some,
    ensures
        match without(block, None, 0, limit, name) {
            Err(_) => false,
            Ok(None) => lacks(entries_of(block, 0, limit)->0, name),
            Ok(Some((node, after))) => after.len() == BLOCK_BYTES && entries_of(
                after,
                0,
                limit,
            ) is Some && taken_out(
                entries_of(block, 0, limit)->0,
                name,
                node,
                entries_of(after, 0, limit)->0,
            ),
        },
{
    lemma_without(block, None, 0, limit, name);
}

} // verus!
