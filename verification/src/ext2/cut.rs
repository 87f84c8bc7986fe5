//! What a loss of power in the course of a change leaves.
use vstd::prelude::*;

use crate::block::DeviceOp;
use crate::bytes::{le16, splice, to_le16};
use crate::fs::NodeId;

use super::allocator::{
    adjust_counts_step, counted, mark_step, Counter, GROUP_DESCRIPTOR_BLOCK, SUPERBLOCK_BLOCK,
};
use super::contents::file_record;
use super::inode::{load_step, record_start, store_step, table_block};
use super::mutation::{parent_links_step, used_dirs_step};
use super::on_disk::{BLOCK_BYTES, GROUP_DESCRIPTOR_USED_DIRS, INODE_LINKS};
use super::removal::left;
use super::tree::healthy_dir;
use super::volume::Volume;
use super::{PROFILE_BLOCKS, SECTORS_PER_BLOCK};

verus! {

/// The blocks after some requests that changed the device.
pub open spec fn replayed(blocks: Seq<Seq<u8>>, ops: Seq<DeviceOp>) -> Seq<Seq<u8>>
    decreases ops.len(),
{
    if ops.len() == 0 {
        blocks
    } else {
        let before = replayed(blocks, ops.drop_last());
        match ops.last() {
            DeviceOp::Write { lba, bytes } => before.update(
                lba as int / (SECTORS_PER_BLOCK as int),
                bytes,
            ),
            DeviceOp::Flush => before,
        }
    }
}

/// The file system as the first `k` of the requests in `log` left it, where those that `v` had
/// seen are among them: what there is after a loss of power.
pub open spec fn cut(v: Volume, log: Seq<DeviceOp>, k: int) -> Volume {
    Volume { blocks: replayed(v.blocks, log.subrange(v.log.len() as int, k)), ..v }
}

/// A change from `v` to `w` did what its requests say, and wherever it was cut short, `holds` is
/// true of the blocks.
pub open spec fn always(v: Volume, w: Volume, holds: spec_fn(Seq<Seq<u8>>) -> bool) -> bool {
    &&& v.log.is_prefix_of(w.log)
    &&& w.blocks == cut(v, w.log, w.log.len() as int).blocks
    &&& forall|k: int|
        v.log.len() <= k <= w.log.len() ==> holds(#[trigger] cut(v, w.log, k).blocks)
}

proof fn lemma_replayed_both(blocks: Seq<Seq<u8>>, a: Seq<DeviceOp>, b: Seq<DeviceOp>)
    ensures
        replayed(blocks, a + b) == replayed(replayed(blocks, a), b),
    decreases b.len(),
{
    if b.len() == 0 {
        assert(a + b =~= a);
    } else {
        assert((a + b).drop_last() =~= a + b.drop_last());
        lemma_replayed_both(blocks, a, b.drop_last());
    }
}

/// One change after another.
pub(crate) proof fn lemma_always_both(
    v: Volume,
    u: Volume,
    w: Volume,
    holds: spec_fn(Seq<Seq<u8>>) -> bool,
)
    requires
        always(v, u, holds),
        always(u, w, holds),
    ensures
        always(v, w, holds),
{
    let a = v.log.len() as int;
    let b = u.log.len() as int;
    assert forall|k: int| a <= k <= w.log.len() implies (k <= b ==> cut(v, w.log, k).blocks == cut(
        v,
        u.log,
        k,
    ).blocks) && (k >= b ==> cut(v, w.log, k).blocks == cut(u, w.log, k).blocks) by {
        if k <= b {
            assert(w.log.subrange(a, k) =~= u.log.subrange(a, k));
        }
        if k >= b {
            assert(w.log.subrange(a, k) =~= u.log.subrange(a, b) + w.log.subrange(b, k));
            lemma_replayed_both(v.blocks, u.log.subrange(a, b), w.log.subrange(b, k));
        }
    }
    assert forall|k: int| a <= k <= w.log.len() implies holds(
        #[trigger] cut(v, w.log, k).blocks,
    ) by {
        if k <= b {
            assert(holds(cut(v, u.log, k).blocks));
        } else {
            assert(holds(cut(u, w.log, k).blocks));
        }
    }
}

/// What holds wherever a change is cut short may be stated in weaker words.
pub(crate) proof fn lemma_always_weaker(
    v: Volume,
    w: Volume,
    holds: spec_fn(Seq<Seq<u8>>) -> bool,
    weaker: spec_fn(Seq<Seq<u8>>) -> bool,
)
    requires
        always(v, w, holds),
        forall|blocks: Seq<Seq<u8>>| #[trigger] holds(blocks) ==> weaker(blocks),
    ensures
        always(v, w, weaker),
{
    assert forall|k: int| v.log.len() <= k <= w.log.len() implies weaker(
        #[trigger] cut(v, w.log, k).blocks,
    ) by {
        assert(holds(cut(v, w.log, k).blocks));
    }
}

/// Reading requests nothing that changes the device.
pub(crate) proof fn lemma_always_read(v: Volume, w: Volume, holds: spec_fn(Seq<Seq<u8>>) -> bool)
    requires
        w.log == v.log,
        w.blocks == v.blocks,
        holds(v.blocks),
    ensures
        always(v, w, holds),
{
    assert forall|k: int| v.log.len() <= k <= w.log.len() implies cut(v, w.log, k).blocks
        == v.blocks by {
        assert(w.log.subrange(v.log.len() as int, k) =~= Seq::<DeviceOp>::empty());
    }
}

/// A write that succeeds is done as a whole.
pub(crate) proof fn lemma_always_write(
    v: Volume,
    b: u32,
    bytes: Seq<u8>,
    holds: spec_fn(Seq<Seq<u8>>) -> bool,
)
    requires
        b < PROFILE_BLOCKS ==> holds(v.blocks) && holds(v.blocks.update(b as int, bytes)),
    ensures
        v.write(b, bytes).result is Ok ==> always(v, v.write(b, bytes).volume, holds),
        v.write_through(b, bytes).result is Ok ==> always(
            v,
            v.write_through(b, bytes).volume,
            holds,
        ),
{
    let s = v.write(b, bytes);
    if s.result is Ok {
        let w = s.volume;
        let a = v.log.len() as int;
        let op = DeviceOp::Write { lba: (b * SECTORS_PER_BLOCK) as u64, bytes };
        assert(w.log == v.log.push(op));
        assert(w.log.subrange(a, a) =~= Seq::<DeviceOp>::empty());
        assert(w.log.subrange(a, a + 1) =~= seq![op]);
        assert(seq![op].drop_last() =~= Seq::<DeviceOp>::empty());
        assert(seq![op].last() == op);
        assert((b * SECTORS_PER_BLOCK) / (SECTORS_PER_BLOCK as int) == b);
        assert(replayed(v.blocks, Seq::empty()) == v.blocks);
        assert(replayed(v.blocks, seq![op]) == v.blocks.update(b as int, bytes));
        assert(cut(v, w.log, a + 1).blocks == w.blocks);
        assert(always(v, w, holds));
        if v.write_through(b, bytes).result is Ok {
            lemma_always_flush(w, holds);
            lemma_always_both(v, w, w.flush().volume, holds);
        }
    }
}

proof fn lemma_always_flush(v: Volume, holds: spec_fn(Seq<Seq<u8>>) -> bool)
    requires
        holds(v.blocks),
    ensures
        v.flush().result is Ok ==> always(v, v.flush().volume, holds),
{
    if v.flush().result is Ok {
        let w = v.flush().volume;
        let a = v.log.len() as int;
        assert(w.log == v.log.push(DeviceOp::Flush));
        assert(w.log.subrange(a, a) =~= Seq::<DeviceOp>::empty());
        assert(w.log.subrange(a, a + 1) =~= seq![DeviceOp::Flush]);
        assert(seq![DeviceOp::Flush].drop_last() =~= Seq::<DeviceOp>::empty());
        assert(seq![DeviceOp::Flush].last() == DeviceOp::Flush);
        assert(replayed(v.blocks, Seq::empty()) == v.blocks);
        assert(replayed(v.blocks, seq![DeviceOp::Flush]) == v.blocks);
    }
}

/// The blocks differ at most in the superblock, the group descriptor and a bitmap, which is the
/// old or the new one.
pub(crate) open spec fn touched(v: Volume, b: u32, bitmap: Seq<u8>, blocks: Seq<Seq<u8>>) -> bool {
    &&& blocks.len() == PROFILE_BLOCKS
    &&& forall|c: int| 0 <= c < PROFILE_BLOCKS ==> (#[trigger] blocks[c]).len() == BLOCK_BYTES
    &&& forall|c: int| 2 <= c < PROFILE_BLOCKS && c != b ==> #[trigger] blocks[c] == v.blocks[c]
    &&& blocks[b as int] == v.blocks[b as int] || blocks[b as int] == bitmap
}

/// A change of a bitmap, wherever it is cut short, touches the accounts only.
pub(crate) proof fn lemma_mark_cut(
    v: Volume,
    b: u32,
    bitmap: Seq<u8>,
    counter: Counter,
    decrement: bool,
)
    requires
        v.wf(),
        counter.wf(),
        2 <= b < PROFILE_BLOCKS,
        bitmap.len() == BLOCK_BYTES,
    ensures
        mark_step(v, b, bitmap, counter, decrement).result is Ok ==> always(
            v,
            mark_step(v, b, bitmap, counter, decrement).volume,
            |blocks: Seq<Seq<u8>>| touched(v, b, bitmap, blocks),
        ),
{
    let holds = |blocks: Seq<Seq<u8>>| touched(v, b, bitmap, blocks);
    reveal(mark_step);
    reveal(adjust_counts_step);
    if mark_step(v, b, bitmap, counter, decrement).result is Ok {
        lemma_always_write(v, b, bitmap, holds);
        let v1 = v.write(b, bitmap).volume;
        let s = v1.read_for_update(SUPERBLOCK_BLOCK);
        let g = s.volume.read_for_update(GROUP_DESCRIPTOR_BLOCK);
        lemma_always_read(v1, s.volume, holds);
        lemma_always_both(v, v1, s.volume, holds);
        lemma_always_read(s.volume, g.volume, holds);
        lemma_always_both(v, s.volume, g.volume, holds);
        let (superblock, group) = counted(s.result->Ok_0, g.result->Ok_0, counter, decrement)->0;
        lemma_always_write(g.volume, SUPERBLOCK_BLOCK, superblock, holds);
        let v2 = g.volume.write(SUPERBLOCK_BLOCK, superblock).volume;
        lemma_always_both(v, g.volume, v2, holds);
        lemma_always_write(v2, GROUP_DESCRIPTOR_BLOCK, group, holds);
        let v3 = v2.write(GROUP_DESCRIPTOR_BLOCK, group).volume;
        lemma_always_both(v, v2, v3, holds);
        lemma_always_flush(v3, holds);
        lemma_always_both(v, v3, v3.flush().volume, holds);
    }
}

/// The file system with other blocks.
pub(crate) open spec fn with_blocks(v: Volume, blocks: Seq<Seq<u8>>) -> Volume {
    Volume { blocks, ..v }
}

/// The blocks are those before or those after.
pub(crate) open spec fn either(v: Volume, w: Volume) -> spec_fn(Seq<Seq<u8>>) -> bool {
    |blocks: Seq<Seq<u8>>| blocks == v.blocks || blocks == w.blocks
}

/// Storing a record is done as a whole.
pub(crate) proof fn lemma_store_cut(v: Volume, node: NodeId, record: Seq<u8>)
    requires
        v.wf(),
    ensures
        store_step(v, node, record).result is Ok ==> always(
            v,
            store_step(v, node, record).volume,
            either(v, store_step(v, node, record).volume),
        ),
{
    reveal(store_step);
    if store_step(v, node, record).result is Ok {
        let w = store_step(v, node, record).volume;
        let t = table_block(v.geometry, node);
        let u = v.read_for_update(t).volume;
        let image = splice(v.blocks[t as int], record_start(node), record);
        lemma_always_read(v, u, either(v, w));
        lemma_always_write(u, t, image, either(v, w));
        lemma_always_both(v, u, w, either(v, w));
    }
}

/// Changing the number of directories is done as a whole.
pub(crate) proof fn lemma_used_dirs_cut(v: Volume, increment: bool)
    requires
        v.wf(),
    ensures
        used_dirs_step(v, increment).result is Ok ==> always(
            v,
            used_dirs_step(v, increment).volume,
            either(v, used_dirs_step(v, increment).volume),
        ),
{
    if used_dirs_step(v, increment).result is Ok {
        let w = used_dirs_step(v, increment).volume;
        let s = v.read_for_update(GROUP_DESCRIPTOR_BLOCK);
        let group = s.result->Ok_0;
        let used = le16(group, GROUP_DESCRIPTOR_USED_DIRS as int) + if increment {
            1int
        } else {
            -1
        };
        let image = splice(group, GROUP_DESCRIPTOR_USED_DIRS as int, to_le16(used as u16));
        lemma_always_read(v, s.volume, either(v, w));
        lemma_always_write(s.volume, GROUP_DESCRIPTOR_BLOCK, image, either(v, w));
        lemma_always_both(v, s.volume, w, either(v, w));
    }
}

/// Changing the number of links to a directory is done as a whole.
pub(crate) proof fn lemma_parent_links_cut(v: Volume, dir: NodeId, increment: bool)
    requires
        healthy_dir(v, dir),
    ensures
        parent_links_step(v, dir, increment).result is Ok ==> always(
            v,
            parent_links_step(v, dir, increment).volume,
            either(v, parent_links_step(v, dir, increment).volume),
        ),
{
    if parent_links_step(v, dir, increment).result is Ok {
        let w = parent_links_step(v, dir, increment).volume;
        let u = load_step(v, dir).volume;
        let record = file_record(v, dir);
        let links = le16(record, INODE_LINKS as int) + if increment {
            1int
        } else {
            -1
        };
        let image = splice(record, INODE_LINKS as int, to_le16(links as u16));
        lemma_always_read(v, u, either(v, w));
        lemma_store_cut(u, dir, image);
        lemma_always_weaker(u, w, either(u, w), either(v, w));
        lemma_always_both(v, u, w, either(v, w));
    }
}

} // verus!
