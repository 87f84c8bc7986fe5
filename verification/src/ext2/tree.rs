//! What directories hold.
use vstd::prelude::*;

use crate::bytes::{le16, splice, to_le16};
use crate::fs::{EntryView, NodeId, NodeKind};

use super::allocator::{marked, GROUP_DESCRIPTOR_BLOCK};
use super::contents::{
    bitmap_of, contents, file_layout, file_len, file_record, healthy_file, lemma_store, lemma_write,
    marks_grow, ownable, owns, same_frame, sound,
};
use super::directory::{
    block_limit, blocks_for, find, live, lookup_step, named, only_read, read_dir_step, record_at,
    resolve_dir_step, scan_block, scan_blocks, Entry,
};
use super::entries::{entries_of, lacks};
use super::inode::{
    load_block_step, load_step, metadata_of, metadata_step, pointer_of, supported, table_block,
    valid_node, DIRECT_BLOCKS, MAX_FILE_BYTES,
};
use super::laws::lemma_scan_blocks_reads;
use super::mutation::{parent_links_step, used_dirs_step, Layout, TABLE_LEN};
use super::on_disk::{BLOCK_BYTES, GROUP_DESCRIPTOR_USED_DIRS, INODE_LINKS};
use super::volume::{answering, Step, Volume};
use super::{Ext2Error, PROFILE_BLOCKS};

verus! {

/// The content of a directory's blocks, in order.
pub open spec fn directory_blocks(v: Volume, dir: NodeId) -> Seq<Seq<u8>> {
    Seq::new(
        blocks_for(file_len(v, dir)) as nat,
        |l: int| v.blocks[file_layout(v, dir).data[l] as int],
    )
}

/// The entries of the first `n` blocks of a directory of `len` bytes.
pub open spec fn gathered(blocks: Seq<Seq<u8>>, len: int, n: int) -> Seq<Entry>
    decreases n,
{
    if n <= 0 {
        Seq::empty()
    } else {
        gathered(blocks, len, n - 1) + entries_of(blocks[n - 1], 0, block_limit(len, n - 1))->0
    }
}

/// The entries of a directory, in order.
pub open spec fn entries(v: Volume, dir: NodeId) -> Seq<Entry> {
    let len = file_len(v, dir);
    gathered(directory_blocks(v, dir), len, blocks_for(len))
}

/// No record of a directory is damaged.
pub open spec fn undamaged(blocks: Seq<Seq<u8>>, len: int) -> bool {
    forall|l: int|
        0 <= l < blocks_for(len) ==> entries_of(#[trigger] blocks[l], 0, block_limit(len, l)) is Some
}

/// A node is in use and of a kind.
pub open spec fn in_use(v: Volume, node: NodeId, kind: NodeKind) -> bool {
    &&& valid_node(node)
    &&& supported(file_record(v, node))
    &&& metadata_of(file_record(v, node))->Ok_0.kind == kind
    &&& marked(v.blocks[v.geometry.inode_bitmap as int], node.0 - 1)
}

/// Every entry names a node that is in use and of the entry's kind.
pub open spec fn all_in_use(v: Volume, entries: Seq<Entry>) -> bool {
    forall|i: int|
        0 <= i < entries.len() ==> in_use(v, (#[trigger] entries[i]).node, entries[i].kind)
}

/// No two entries have the same name.
pub open spec fn distinct_names(entries: Seq<Entry>) -> bool {
    forall|i: int, j: int|
        0 <= i < j < entries.len() && (#[trigger] entries[i]).name is Some ==> entries[i].name != (
        #[trigger] entries[j]).name
}

/// A node is a directory in use, with a sound layout and blocks for exactly its length, whose
/// records are undamaged and name nodes in use, each by a name of its own.
pub open spec fn healthy_dir(v: Volume, dir: NodeId) -> bool {
    let layout = file_layout(v, dir);
    &&& v.wf()
    &&& in_use(v, dir, NodeKind::Directory)
    &&& sound(v, layout)
    &&& forall|l: int|
        0 <= l < TABLE_LEN ==> (#[trigger] layout.data[l] != 0) == (l < blocks_for(file_len(v, dir)))
    &&& undamaged(directory_blocks(v, dir), file_len(v, dir))
    &&& all_in_use(v, entries(v, dir))
    &&& distinct_names(entries(v, dir))
}

pub(crate) proof fn lemma_gathered(blocks: Seq<Seq<u8>>, len: int, n: int, l: int)
    requires
        0 <= l < n,
    ensures
        gathered(blocks, len, n).len() >= gathered(blocks, len, l + 1).len(),
        forall|i: int|
            0 <= i < gathered(blocks, len, l + 1).len() ==> #[trigger] gathered(blocks, len, l + 1)[i]
                == gathered(blocks, len, n)[i],
    decreases n,
{
    if l + 1 < n {
        lemma_gathered(blocks, len, n - 1, l);
    }
}

/// Scanning a block gives its entries, unless the device fails.
proof fn lemma_scan_block(
    v: Volume,
    u: Volume,
    block: Seq<u8>,
    offset: int,
    limit: int,
    seen: Seq<Entry>,
)
    requires
        v.wf(),
        only_read(v, u),
        0 <= offset,
        limit <= block.len(),
        entries_of(block, offset, limit) is Some,
        all_in_use(v, entries_of(block, offset, limit)->0),
    ensures
        ({
            let s = scan_block(u, block, offset, limit, seen);
            &&& only_read(v, s.volume)
            &&& match s.result {
                Ok(all) => all == seen + entries_of(block, offset, limit)->0,
                Err(e) => e is Block,
            }
        }),
    decreases limit - offset,
{
    if offset < limit {
        let record = record_at(block, offset, limit)->Ok_0;
        let next = offset + record.length;
        let here = entries_of(block, offset, limit)->0;
        let rest = entries_of(block, next, limit)->0;
        match live(record)->Ok_0 {
            None => lemma_scan_block(v, u, block, next, limit, seen),
            Some(entry) => {
                assert(here[0] == entry);
                assert(in_use(v, entry.node, entry.kind));
                assert forall|i: int| 0 <= i < rest.len() implies in_use(
                    v,
                    (#[trigger] rest[i]).node,
                    rest[i].kind,
                ) by {
                    assert(here[i + 1] == rest[i]);
                }
                let child = load_step(u, entry.node);
                if child.result is Ok {
                    lemma_scan_block(v, child.volume, block, next, limit, seen.push(entry));
                    assert(seen.push(entry) + rest =~= seen + here);
                }
            },
        }
    } else {
        assert(seen + Seq::<Entry>::empty() =~= seen);
    }
}

/// A directory's block is found and read, unless the device fails.
pub(crate) proof fn lemma_load_directory_block(v: Volume, u: Volume, dir: NodeId, l: int)
    requires
        healthy_dir(v, dir),
        only_read(v, u),
        0 <= l < blocks_for(file_len(v, dir)),
    ensures
        ({
            let record = file_record(v, dir);
            let number = file_layout(v, dir).data[l];
            let s = load_block_step(u, record, l);
            let t = resolve_dir_step(u, record, l);
            &&& l < TABLE_LEN
            &&& ownable(v, number)
            &&& directory_blocks(v, dir)[l] == v.blocks[number as int]
            &&& only_read(v, s.volume)
            &&& match s.result {
                Ok(block) => block == v.blocks[number as int],
                Err(e) => e is Block,
            }
            &&& only_read(v, t.volume)
            &&& match t.result {
                Ok(found) => found == number,
                Err(e) => e is Block,
            }
        }),
{
    let layout = file_layout(v, dir);
    assert(file_len(v, dir) <= MAX_FILE_BYTES);
    assert(l < TABLE_LEN);
    assert(layout.data[l] != 0);
    assert(ownable(v, layout.data[l]));
    if l >= DIRECT_BLOCKS {
        assert(ownable(v, layout.indirect));
    }
}

proof fn lemma_scan_blocks(v: Volume, u: Volume, dir: NodeId, l: int)
    requires
        healthy_dir(v, dir),
        only_read(v, u),
        0 <= l <= blocks_for(file_len(v, dir)),
    ensures
        ({
            let len = file_len(v, dir);
            let s = scan_blocks(
                u,
                file_record(v, dir),
                l,
                gathered(directory_blocks(v, dir), len, l),
            );
            &&& only_read(v, s.volume)
            &&& match s.result {
                Ok(all) => all == entries(v, dir),
                Err(e) => e is Block,
            }
        }),
    decreases blocks_for(file_len(v, dir)) - l,
{
    let record = file_record(v, dir);
    let len = file_len(v, dir);
    let blocks = directory_blocks(v, dir);
    if l < blocks_for(len) {
        lemma_load_directory_block(v, u, dir, l);
        let loaded = load_block_step(u, record, l);
        if let Ok(block) = loaded.result {
            assert(block == blocks[l]);
            let seen = gathered(blocks, len, l);
            let here = entries_of(block, 0, block_limit(len, l))->0;
            assert(all_in_use(v, here)) by {
                lemma_gathered(blocks, len, blocks_for(len), l);
                assert forall|i: int| 0 <= i < here.len() implies in_use(
                    v,
                    (#[trigger] here[i]).node,
                    here[i].kind,
                ) by {
                    assert(gathered(blocks, len, l + 1)[seen.len() + i] == here[i]);
                    assert(entries(v, dir)[seen.len() + i] == here[i]);
                }
            }
            lemma_scan_block(v, loaded.volume, block, 0, block_limit(len, l), seen);
            let scanned = scan_block(loaded.volume, block, 0, block_limit(len, l), seen);
            if scanned.result is Ok {
                assert(scanned.result->Ok_0 == gathered(blocks, len, l + 1));
                lemma_scan_blocks(v, scanned.volume, dir, l + 1);
            }
        }
    }
}

/// Looking a name up gives the node of the entry that has it, and listing a directory gives its
/// named entries in order, unless the device fails.
pub proof fn law_lookup_gives_the_entry(v: Volume, dir: NodeId, name: Seq<u8>)
    requires
        healthy_dir(v, dir),
    ensures
        only_read(v, lookup_step(v, dir, name).volume),
        lookup_step(v, dir, name).result matches Err(Ext2Error::Block(_)) || lookup_step(
            v,
            dir,
            name,
        ).result == match find(entries(v, dir), name) {
            Some(node) => Ok::<NodeId, Ext2Error>(node),
            None => Err(Ext2Error::NotFound),
        },
        only_read(v, read_dir_step(v, dir).volume),
        read_dir_step(v, dir).result matches Err(Ext2Error::Block(_)) || read_dir_step(v, dir).result
            == Ok::<Seq<EntryView>, Ext2Error>(named(entries(v, dir))),
{
    let s = load_step(v, dir);
    if s.result is Ok {
        lemma_scan_blocks(v, s.volume, dir, 0);
    }
}

/// The first entry with a name is the one that is found.
pub(crate) proof fn lemma_find(entries: Seq<Entry>, name: Seq<u8>)
    ensures
        match find(entries, name) {
            None => lacks(entries, name),
            Some(node) => exists|k: int|
                0 <= k < entries.len() && (#[trigger] entries[k]).name == Some(name)
                    && entries[k].node == node && lacks(entries.take(k), name),
        },
    decreases entries.len(),
{
    if entries.len() > 0 {
        let front = entries.drop_last();
        lemma_find(front, name);
        match find(front, name) {
            Some(node) => {
                let k = choose|k: int|
                    0 <= k < front.len() && (#[trigger] front[k]).name == Some(name)
                        && front[k].node == node && lacks(front.take(k), name);
                assert(entries[k] == front[k]);
                assert(entries.take(k) =~= front.take(k));
            },
            None => {
                let last = entries.len() - 1;
                assert(entries.take(last) =~= front);
                if entries.last().name == Some(name) {
                    assert(entries[last].name == Some(name));
                } else {
                    assert forall|i: int| 0 <= i < entries.len() implies (#[trigger] entries[i]).name
                        != Some(name) by {
                        if i < last {
                            assert(front[i] == entries[i]);
                        }
                    }
                }
            },
        }
    }
}

/// Two file systems hold the same.
pub open spec fn same_content(v: Volume, w: Volume) -> bool {
    w.blocks == v.blocks && w.geometry == v.geometry
}

/// What was read once is read again, unless the device fails.
spec fn again<T>(v: Volume, first: Step<T>, w: Volume, second: Step<T>) -> bool {
    &&& only_read(v, first.volume)
    &&& only_read(w, second.volume)
    &&& first.result is Ok ==> match second.result {
        Ok(value) => value == first.result->Ok_0,
        Err(e) => e is Block && !answering(w),
    }
    &&& answering(v) && answering(w) ==> second.result == first.result
}

proof fn lemma_load_again(v: Volume, w: Volume, node: NodeId)
    requires
        same_content(v, w),
    ensures
        again(v, load_step(v, node), w, load_step(w, node)),
{
}

proof fn lemma_load_block_again(v: Volume, w: Volume, record: Seq<u8>, logical: int)
    requires
        same_content(v, w),
    ensures
        again(v, load_block_step(v, record, logical), w, load_block_step(w, record, logical)),
{
}

proof fn lemma_scan_block_again(
    v: Volume,
    w: Volume,
    block: Seq<u8>,
    offset: int,
    limit: int,
    seen: Seq<Entry>,
)
    requires
        same_content(v, w),
    ensures
        again(
            v,
            scan_block(v, block, offset, limit, seen),
            w,
            scan_block(w, block, offset, limit, seen),
        ),
    decreases limit - offset,
{
    if offset < limit && record_at(block, offset, limit) is Ok {
        let record = record_at(block, offset, limit)->Ok_0;
        let next = offset + record.length;
        if record.length > 0 && live(record) is Ok {
            match live(record)->Ok_0 {
                None => lemma_scan_block_again(v, w, block, next, limit, seen),
                Some(entry) => {
                    lemma_load_again(v, w, entry.node);
                    let a = load_step(v, entry.node);
                    let b = load_step(w, entry.node);
                    lemma_scan_block_again(
                        a.volume,
                        b.volume,
                        block,
                        next,
                        limit,
                        seen.push(entry),
                    );
                },
            }
        }
    }
}

proof fn lemma_scan_blocks_again(
    v: Volume,
    w: Volume,
    record: Seq<u8>,
    logical: int,
    seen: Seq<Entry>,
)
    requires
        same_content(v, w),
    ensures
        again(v, scan_blocks(v, record, logical, seen), w, scan_blocks(w, record, logical, seen)),
    decreases blocks_for(metadata_of(record)->Ok_0.len as int) - logical,
{
    let len = metadata_of(record)->Ok_0.len as int;
    lemma_scan_blocks_reads(v, record, logical, seen);
    lemma_scan_blocks_reads(w, record, logical, seen);
    if logical < blocks_for(len) {
        lemma_load_block_again(v, w, record, logical);
        let a = load_block_step(v, record, logical);
        let b = load_block_step(w, record, logical);
        if b.result is Ok {
            let limit = block_limit(len, logical);
            lemma_scan_block_again(a.volume, b.volume, b.result->Ok_0, 0, limit, seen);
            let a = scan_block(a.volume, b.result->Ok_0, 0, limit, seen);
            let b = scan_block(b.volume, b.result->Ok_0, 0, limit, seen);
            if b.result is Ok {
                lemma_scan_blocks_again(a.volume, b.volume, record, logical + 1, b.result->Ok_0);
            }
        }
    }
}

/// The first of the named entries with a name is the one that is found.
proof fn lemma_find_named(entries: Seq<Entry>, name: Seq<u8>)
    ensures
        match find(entries, name) {
            None => forall|i: int|
                0 <= i < named(entries).len() ==> (#[trigger] named(entries)[i]).name != name,
            Some(node) => exists|i: int| first_with(named(entries), name, i) && #[trigger] named(
                entries,
            )[i].node == node,
        },
    decreases entries.len(),
{
    if entries.len() > 0 {
        let front = entries.drop_last();
        lemma_find_named(front, name);
        if find(front, name) is Some {
            let i = choose|i: int|
                first_with(named(front), name, i) && #[trigger] named(front)[i].node == find(
                    front,
                    name,
                )->0;
            assert(named(entries)[i] == named(front)[i]);
            assert forall|j: int| 0 <= j < i implies (#[trigger] named(entries)[j]).name
                != name by {
                assert(named(entries)[j] == named(front)[j]);
            }
            assert(first_with(named(entries), name, i));
        } else {
            let last = named(front).len() as int;
            if entries.last().name == Some(name) {
                assert forall|j: int| 0 <= j < last implies (#[trigger] named(entries)[j]).name
                    != name by {
                    assert(named(entries)[j] == named(front)[j]);
                }
                assert(first_with(named(entries), name, last));
                assert(named(entries)[last].node == entries.last().node);
            } else {
                assert forall|j: int| 0 <= j < named(entries).len() implies (#[trigger] named(
                    entries,
                )[j]).name != name by {
                    if j < last {
                        assert(named(entries)[j] == named(front)[j]);
                    }
                }
            }
        }
    }
}

/// Looking at a node gives the same again, unless the device fails.
pub(crate) proof fn lemma_look_again(v: Volume, w: Volume, node: NodeId, name: Seq<u8>)
    requires
        same_content(v, w),
        answering(v),
        answering(w),
    ensures
        only_read(w, metadata_step(w, node).volume),
        metadata_step(w, node).result == metadata_step(v, node).result,
        only_read(w, lookup_step(w, node, name).volume),
        lookup_step(w, node, name).result == lookup_step(v, node, name).result,
{
    lemma_load_again(v, w, node);
    let a = load_step(v, node);
    let b = load_step(w, node);
    if b.result is Ok {
        lemma_scan_blocks_again(a.volume, b.volume, b.result->Ok_0, 0, Seq::empty());
    }
}

/// The first entry of a listing with a name.
pub open spec fn first_with(listing: Seq<EntryView>, name: Seq<u8>, i: int) -> bool {
    &&& 0 <= i < listing.len()
    &&& listing[i].name == name
    &&& forall|j: int| 0 <= j < i ==> (#[trigger] listing[j]).name != name
}

/// Whatever a directory holds: where listing it succeeds and nothing is written afterwards,
/// looking a name up gives the node of the first entry in the listing with that name, and
/// `NotFound` where there is none. Only a failure of the device during the lookup stops that.
pub proof fn law_lookup_agrees_with_the_listing(v: Volume, w: Volume, dir: NodeId, name: Seq<u8>)
    requires
        read_dir_step(v, dir).result is Ok,
        same_content(v, w),
    ensures
        ({
            let listing = read_dir_step(v, dir).result->Ok_0;
            let found = lookup_step(w, dir, name).result;
            let failed = found matches Err(Ext2Error::Block(_)) && !answering(w);
            &&& forall|i: int| #[trigger]
                first_with(listing, name, i) ==> failed || found == Ok::<NodeId, Ext2Error>(
                    listing[i].node,
                )
            &&& (forall|i: int| 0 <= i < listing.len() ==> (#[trigger] listing[i]).name != name)
                ==> failed || found == Err::<NodeId, _>(Ext2Error::NotFound)
        }),
{
    let listing = read_dir_step(v, dir).result->Ok_0;
    lemma_load_again(v, w, dir);
    let a = load_step(v, dir);
    let b = load_step(w, dir);
    if b.result is Ok {
        lemma_scan_blocks_again(a.volume, b.volume, b.result->Ok_0, 0, Seq::empty());
        let scanned = scan_blocks(a.volume, b.result->Ok_0, 0, Seq::empty()).result->Ok_0;
        lemma_find_named(scanned, name);
        assert(listing == named(scanned));
        assert forall|i: int, j: int| #[trigger]
            first_with(listing, name, i) && #[trigger] first_with(listing, name, j) implies i
            == j by {}
        if let Some(node) = find(scanned, name) {
            let k = choose|k: int|
                first_with(listing, name, k) && #[trigger] listing[k].node == node;
            assert(first_with(listing, name, k));
            assert(listing[k].name == name);
        } else {
            assert forall|i: int| #[trigger] first_with(listing, name, i) implies false by {
                assert(listing[i].name != name);
            }
        }
    }
}

/// A node keeps its mark.
pub open spec fn mark_kept(v: Volume, w: Volume, node: NodeId) -> bool {
    marked(w.blocks[w.geometry.inode_bitmap as int], node.0 - 1) == marked(
        v.blocks[v.geometry.inode_bitmap as int],
        node.0 - 1,
    )
}

/// A node keeps its record and its mark.
pub open spec fn node_kept(v: Volume, w: Volume, node: NodeId) -> bool {
    &&& file_record(w, node) == file_record(v, node)
    &&& marked(w.blocks[w.geometry.inode_bitmap as int], node.0 - 1) == marked(
        v.blocks[v.geometry.inode_bitmap as int],
        node.0 - 1,
    )
}

/// A node keeps what its record says of its kind, its length and its blocks, and its mark.
pub open spec fn alike(v: Volume, w: Volume, node: NodeId) -> bool {
    let before = file_record(v, node);
    let after = file_record(w, node);
    &&& supported(after) == supported(before)
    &&& metadata_of(after)->Ok_0.kind == metadata_of(before)->Ok_0.kind
    &&& metadata_of(after)->Ok_0.len == metadata_of(before)->Ok_0.len
    &&& forall|i: int|
        0 <= i <= 12 ==> #[trigger] pointer_of(after, i) == pointer_of(before, i)
    &&& marked(w.blocks[w.geometry.inode_bitmap as int], node.0 - 1) == marked(
        v.blocks[v.geometry.inode_bitmap as int],
        node.0 - 1,
    )
}

/// A directory is kept where its blocks and their marks are, and the nodes that it names stay in
/// use.
pub(crate) proof fn lemma_directory_alike(v: Volume, w: Volume, dir: NodeId)
    requires
        healthy_dir(v, dir),
        same_frame(v, w),
        alike(v, w, dir),
        all_in_use(w, entries(v, dir)),
        forall|b: int|
            0 <= b < PROFILE_BLOCKS && #[trigger] owns(file_layout(v, dir), b) ==> w.blocks[b]
                == v.blocks[b] && marked(bitmap_of(w), b),
    ensures
        healthy_dir(w, dir),
        entries(w, dir) == entries(v, dir),
        file_layout(w, dir) == file_layout(v, dir),
        file_len(w, dir) == file_len(v, dir),
{
    let layout = file_layout(v, dir);
    let after = file_layout(w, dir);
    let len = file_len(v, dir);
    if layout.indirect != 0 {
        assert(ownable(v, layout.indirect));
        assert(owns(layout, layout.indirect as int));
    }
    assert(pointer_of(file_record(w, dir), 12) == pointer_of(file_record(v, dir), 12));
    assert forall|i: int| 0 <= i < TABLE_LEN implies after.data[i] == layout.data[i] by {
        if i < DIRECT_BLOCKS {
            assert(pointer_of(file_record(w, dir), i) == pointer_of(file_record(v, dir), i));
        }
    }
    assert(after.data =~= layout.data);
    assert(after == layout);
    assert forall|i: int| 0 <= i < TABLE_LEN && #[trigger] layout.data[i] != 0 implies ownable(
        w,
        layout.data[i],
    ) && layout.data[i] != layout.indirect by {
        assert(ownable(v, layout.data[i]));
        assert(owns(layout, layout.data[i] as int));
    }
    assert(sound(w, layout));
    assert forall|l: int| 0 <= l < blocks_for(len) implies directory_blocks(w, dir)[l]
        == directory_blocks(v, dir)[l] by {
        assert(layout.data[l] != 0);
        assert(ownable(v, layout.data[l]));
        assert(owns(layout, layout.data[l] as int));
    }
    assert(directory_blocks(w, dir) =~= directory_blocks(v, dir));
}

/// A directory is kept where its blocks and their marks, and the nodes that it names, are.
pub(crate) proof fn lemma_directory_kept(v: Volume, w: Volume, dir: NodeId)
    requires
        healthy_dir(v, dir),
        same_frame(v, w),
        node_kept(v, w, dir),
        forall|i: int|
            0 <= i < entries(v, dir).len() ==> node_kept(v, w, (#[trigger] entries(v, dir)[i]).node),
        forall|b: int|
            0 <= b < PROFILE_BLOCKS && #[trigger] owns(file_layout(v, dir), b) ==> w.blocks[b]
                == v.blocks[b] && marked(bitmap_of(w), b),
    ensures
        healthy_dir(w, dir),
        entries(w, dir) == entries(v, dir),
        file_layout(w, dir) == file_layout(v, dir),
        file_len(w, dir) == file_len(v, dir),
{
    assert forall|i: int| 0 <= i < entries(v, dir).len() implies in_use(
        w,
        (#[trigger] entries(v, dir)[i]).node,
        entries(v, dir)[i].kind,
    ) by {
        let entry = entries(v, dir)[i];
        assert(in_use(v, entry.node, entry.kind));
    }
    lemma_directory_alike(v, w, dir);
}

/// The entries before a block and those behind it, which do not depend on its content.
pub(crate) proof fn lemma_gathered_around(
    blocks: Seq<Seq<u8>>,
    len: int,
    n: int,
    l: int,
    block: Seq<u8>,
) -> (around: (Seq<Entry>, Seq<Entry>))
    requires
        0 <= l < n <= blocks.len(),
    ensures
        around.0 == gathered(blocks, len, l),
        gathered(blocks, len, n) == around.0 + entries_of(blocks[l], 0, block_limit(len, l))->0
            + around.1,
        gathered(blocks.update(l, block), len, n) == around.0 + entries_of(
            block,
            0,
            block_limit(len, l),
        )->0 + around.1,
    decreases n,
{
    let changed = blocks.update(l, block);
    if l + 1 == n {
        lemma_gathered_same(blocks, changed, len, l);
        let first = gathered(blocks, len, l);
        let empty = Seq::<Entry>::empty();
        assert(gathered(blocks, len, n) + empty =~= gathered(blocks, len, n));
        assert(gathered(changed, len, n) + empty =~= gathered(changed, len, n));
        (first, empty)
    } else {
        let (first, rest) = lemma_gathered_around(blocks, len, n - 1, l, block);
        let last = entries_of(blocks[n - 1], 0, block_limit(len, n - 1))->0;
        let old_here = entries_of(blocks[l], 0, block_limit(len, l))->0;
        let here = entries_of(block, 0, block_limit(len, l))->0;
        assert(first + old_here + rest + last =~= first + old_here + (rest + last));
        assert(first + here + rest + last =~= first + here + (rest + last));
        (first, rest + last)
    }
}

/// The entries of the first blocks do not depend on the others, nor on the length where the
/// blocks are full.
proof fn lemma_gathered_same(a: Seq<Seq<u8>>, b: Seq<Seq<u8>>, len: int, n: int)
    requires
        n <= a.len(),
        n <= b.len(),
        forall|l: int| 0 <= l < n ==> a[l] == b[l],
    ensures
        gathered(a, len, n) == gathered(b, len, n),
    decreases n,
{
    if n > 0 {
        lemma_gathered_same(a, b, len, n - 1);
    }
}

/// A change of one block of a directory changes its entries there.
pub(crate) proof fn lemma_block_changed(v: Volume, w: Volume, dir: NodeId, l: int, block: Seq<u8>)
    requires
        healthy_dir(v, dir),
        same_frame(v, w),
        0 <= l < blocks_for(file_len(v, dir)),
        block.len() == BLOCK_BYTES,
        w.blocks == v.blocks.update(file_layout(v, dir).data[l] as int, block),
        entries_of(block, 0, block_limit(file_len(v, dir), l)) is Some,
    ensures
        forall|node: NodeId| valid_node(node) ==> #[trigger] node_kept(v, w, node),
        bitmap_of(w) == bitmap_of(v),
        file_layout(w, dir) == file_layout(v, dir),
        file_len(w, dir) == file_len(v, dir),
        directory_blocks(w, dir) == directory_blocks(v, dir).update(l, block),
        all_in_use(w, entries(w, dir)) && distinct_names(entries(w, dir)) ==> healthy_dir(w, dir),
{
    let layout = file_layout(v, dir);
    let len = file_len(v, dir);
    assert(l < TABLE_LEN) by {
        assert(len <= MAX_FILE_BYTES);
    }
    assert(layout.data[l] != 0);
    assert(ownable(v, layout.data[l]));
    assert forall|node: NodeId| valid_node(node) implies #[trigger] node_kept(v, w, node) by {
        assert(v.geometry.structural(table_block(v.geometry, node)));
    }
    assert(node_kept(v, w, dir));
    assert(file_layout(w, dir) == layout);
    assert forall|i: int| 0 <= i < TABLE_LEN && #[trigger] layout.data[i] != 0 implies ownable(
        w,
        layout.data[i],
    ) && layout.data[i] != layout.indirect by {
        assert(ownable(v, layout.data[i]));
    }
    assert(sound(w, layout));
    let before = directory_blocks(v, dir);
    let after = directory_blocks(w, dir);
    assert forall|i: int| 0 <= i < blocks_for(len) implies after[i] == before.update(l, block)[i] by {
        assert(layout.data[i] != 0);
        assert(ownable(v, layout.data[i]));
        if i != l {
            assert(layout.data[i] != layout.data[l]);
        }
    }
    assert(after =~= before.update(l, block));
    assert forall|i: int| 0 <= i < blocks_for(len) implies entries_of(
        #[trigger] after[i],
        0,
        block_limit(len, i),
    ) is Some by {
        if i != l {
            assert(after[i] == before[i]);
        }
    }
}

/// A directory in a file system that was only read is the same.
pub(crate) proof fn lemma_reread(v: Volume, u: Volume, dir: NodeId)
    requires
        healthy_dir(v, dir),
        only_read(v, u),
    ensures
        healthy_dir(u, dir),
        entries(u, dir) == entries(v, dir),
        file_layout(u, dir) == file_layout(v, dir),
        file_len(u, dir) == file_len(v, dir),
        same_frame(v, u),
        forall|node: NodeId, kind: NodeKind| #[trigger] in_use(u, node, kind) == in_use(v, node, kind),
{
    assert forall|b: int|
        0 <= b < PROFILE_BLOCKS && #[trigger] owns(file_layout(v, dir), b) implies u.blocks[b]
        == v.blocks[b] && marked(bitmap_of(u), b) by {
        let layout = file_layout(v, dir);
        if b == layout.indirect {
            assert(ownable(v, layout.indirect));
        } else {
            let i = choose|i: int| 0 <= i < layout.data.len() && #[trigger] layout.data[i] == b;
            assert(ownable(v, layout.data[i]));
        }
    }
    lemma_directory_kept(v, u, dir);
}

/// A directory is kept where every node but one that was not in use is, and every block that was
/// in use.
pub(crate) proof fn lemma_kept_by(v: Volume, w: Volume, dir: NodeId, spare: NodeId)
    requires
        healthy_dir(v, dir),
        same_frame(v, w),
        !marked(v.blocks[v.geometry.inode_bitmap as int], spare.0 - 1),
        forall|node: NodeId| valid_node(node) && node != spare ==> #[trigger] node_kept(v, w, node),
        marks_grow(v, w),
        forall|b: u32| #[trigger] ownable(v, b) ==> w.blocks[b as int] == v.blocks[b as int],
    ensures
        healthy_dir(w, dir),
        entries(w, dir) == entries(v, dir),
        file_layout(w, dir) == file_layout(v, dir),
        file_len(w, dir) == file_len(v, dir),
{
    let layout = file_layout(v, dir);
    assert(node_kept(v, w, dir));
    assert forall|i: int| 0 <= i < entries(v, dir).len() implies node_kept(
        v,
        w,
        (#[trigger] entries(v, dir)[i]).node,
    ) by {
        assert(in_use(v, entries(v, dir)[i].node, entries(v, dir)[i].kind));
    }
    assert forall|b: int| 0 <= b < PROFILE_BLOCKS && #[trigger] owns(layout, b) implies w.blocks[b]
        == v.blocks[b] && marked(bitmap_of(w), b) by {
        lemma_owned(v, layout, b);
        assert(ownable(v, b as u32));
    }
    lemma_directory_kept(v, w, dir);
}

/// A sound layout owns only blocks that a file may own.
pub(crate) proof fn lemma_owned(v: Volume, layout: Layout, b: int)
    requires
        sound(v, layout),
        owns(layout, b),
    ensures
        0 < b < PROFILE_BLOCKS,
        ownable(v, b as u32),
{
    if b == layout.indirect {
        assert(ownable(v, layout.indirect));
    } else {
        let i = choose|i: int| 0 <= i < layout.data.len() && #[trigger] layout.data[i] == b;
        assert(ownable(v, layout.data[i]));
    }
}

/// A directory in a file system with the same blocks is the same.
pub(crate) proof fn lemma_same_directory(v: Volume, w: Volume, dir: NodeId)
    requires
        healthy_dir(v, dir),
        same_frame(v, w),
        w.blocks == v.blocks,
    ensures
        healthy_dir(w, dir),
        entries(w, dir) == entries(v, dir),
        file_layout(w, dir) == file_layout(v, dir),
        file_len(w, dir) == file_len(v, dir),
{
    assert forall|b: int|
        0 <= b < PROFILE_BLOCKS && #[trigger] owns(file_layout(v, dir), b) implies marked(
        bitmap_of(w),
        b,
    ) by {
        lemma_owned(v, file_layout(v, dir), b);
    }
    lemma_directory_kept(v, w, dir);
}

/// Two layouts have no block in common.
pub open spec fn apart(a: Layout, b: Layout) -> bool {
    forall|c: int| #[trigger] owns(a, c) ==> !owns(b, c)
}

/// A change of the number of directories touches the group descriptor.
pub(crate) proof fn lemma_used_dirs(v: Volume, increment: bool)
    requires
        v.wf(),
    ensures
        used_dirs_step(v, increment).result is Ok ==> {
            let w = used_dirs_step(v, increment).volume;
            &&& same_frame(v, w)
            &&& forall|c: int| 2 <= c < PROFILE_BLOCKS ==> #[trigger] w.blocks[c] == v.blocks[c]
        },
{
    if used_dirs_step(v, increment).result is Ok {
        let s = v.read_for_update(GROUP_DESCRIPTOR_BLOCK);
        let group = s.result->Ok_0;
        let used = le16(group, GROUP_DESCRIPTOR_USED_DIRS as int) + if increment {
            1int
        } else {
            -1
        };
        lemma_write(
            s.volume,
            GROUP_DESCRIPTOR_BLOCK,
            splice(group, GROUP_DESCRIPTOR_USED_DIRS as int, to_le16(used as u16)),
        );
    }
}

/// A change of the number of links to a directory keeps it.
pub(crate) proof fn lemma_parent_links(v: Volume, dir: NodeId, increment: bool)
    requires
        healthy_dir(v, dir),
    ensures
        parent_links_step(v, dir, increment).result is Ok ==> {
            let w = parent_links_step(v, dir, increment).volume;
            &&& same_frame(v, w)
            &&& healthy_dir(w, dir)
            &&& entries(w, dir) == entries(v, dir)
            &&& file_layout(w, dir) == file_layout(v, dir)
            &&& file_len(w, dir) == file_len(v, dir)
            &&& alike(v, w, dir)
            &&& forall|node: NodeId|
                valid_node(node) && node != dir ==> #[trigger] node_kept(v, w, node)
            &&& bitmap_of(w) == bitmap_of(v)
            &&& forall|b: u32| #[trigger] ownable(v, b) ==> w.blocks[b as int] == v.blocks[b as int]
            &&& forall|c: int|
                0 <= c < PROFILE_BLOCKS && c != table_block(v.geometry, dir)
                    ==> #[trigger] w.blocks[c] == v.blocks[c]
        },
{
    if parent_links_step(v, dir, increment).result is Ok {
        let u = load_step(v, dir).volume;
        let record = file_record(v, dir);
        let links = le16(record, INODE_LINKS as int) + if increment {
            1int
        } else {
            -1
        };
        let image = splice(record, INODE_LINKS as int, to_le16(links as u16));
        lemma_store(u, dir, image);
        let w = parent_links_step(v, dir, increment).volume;
        let t = table_block(v.geometry, dir);
        let m = v.geometry.inode_bitmap;
        assert(v.geometry.structural(m) && t != m);
        assert forall|i: int| 0 <= i <= 14 implies #[trigger] pointer_of(image, i) == pointer_of(
            record,
            i,
        ) by {}
        assert(alike(v, w, dir));
        assert forall|node: NodeId| valid_node(node) && node != dir implies #[trigger] node_kept(
            v,
            w,
            node,
        ) by {
            assert(file_record(w, node) == file_record(u, node));
        }
        assert forall|i: int| 0 <= i < entries(v, dir).len() implies in_use(
            w,
            (#[trigger] entries(v, dir)[i]).node,
            entries(v, dir)[i].kind,
        ) by {
            let entry = entries(v, dir)[i];
            assert(in_use(v, entry.node, entry.kind));
            if entry.node != dir {
                assert(node_kept(v, w, entry.node));
            }
        }
        assert forall|b: int|
            0 <= b < PROFILE_BLOCKS && #[trigger] owns(file_layout(v, dir), b) implies w.blocks[b]
            == v.blocks[b] && marked(bitmap_of(w), b) by {
            lemma_owned(v, file_layout(v, dir), b);
            assert(ownable(v, b as u32));
        }
        lemma_directory_alike(v, w, dir);
    }
}

/// A file is kept where its record, its blocks and their marks are.
pub(crate) proof fn lemma_file_kept(v: Volume, w: Volume, node: NodeId)
    requires
        healthy_file(v, node),
        same_frame(v, w),
        node_kept(v, w, node),
        forall|b: int|
            0 <= b < PROFILE_BLOCKS && #[trigger] owns(file_layout(v, node), b) ==> w.blocks[b]
                == v.blocks[b] && marked(bitmap_of(w), b),
    ensures
        healthy_file(w, node),
        contents(w, node) == contents(v, node),
{
    let layout = file_layout(v, node);
    if layout.indirect != 0 {
        assert(ownable(v, layout.indirect));
        assert(owns(layout, layout.indirect as int));
    }
    assert(file_layout(w, node) == layout);
    assert forall|i: int| 0 <= i < TABLE_LEN && #[trigger] layout.data[i] != 0 implies ownable(
        w,
        layout.data[i],
    ) && layout.data[i] != layout.indirect && w.blocks[layout.data[i] as int]
        == v.blocks[layout.data[i] as int] by {
        assert(ownable(v, layout.data[i]));
        assert(owns(layout, layout.data[i] as int));
    }
    assert(sound(w, layout));
    assert(file_len(v, node) <= MAX_FILE_BYTES);
    assert(contents(w, node) =~= contents(v, node));
}

/// The blocks of a file or directory that were in use outside a directory are kept.
pub(crate) proof fn lemma_apart_kept(v: Volume, w: Volume, layout: Layout, dir: NodeId, b: int)
    requires
        sound(v, layout),
        owns(layout, b),
        apart(layout, file_layout(v, dir)),
        forall|b: u32|
            #[trigger] ownable(v, b) && !owns(file_layout(v, dir), b as int) ==> w.blocks[b as int]
                == v.blocks[b as int],
    ensures
        0 < b < PROFILE_BLOCKS,
        marked(bitmap_of(v), b),
        w.blocks[b] == v.blocks[b],
{
    lemma_owned(v, layout, b);
    assert(ownable(v, b as u32));
}

} // verus!
