//! What a loss of power in the course of a write leaves.
use vstd::prelude::*;

use crate::bytes::zeros;
use crate::fs::NodeId;

use super::allocator::{block_counter, claim_block_step, lemma_with_mark, marked, with_mark};
use super::contents::{
    bitmap_of, contents, file_layout, file_len, file_record, filled_block, healthy_file,
    law_claim_takes_a_free_block, lemma_claim_missing, lemma_ensure_indirect, lemma_fill,
    lemma_indirect_bytes, lemma_same_blocks, lemma_write, marks_grow, ownable, owns, same_frame,
    sound,
};
use super::cut::{
    always, cut, either, lemma_always_both, lemma_always_read, lemma_always_weaker,
    lemma_always_write, lemma_mark_cut, lemma_store_cut, touched, with_blocks,
};
use super::directory::blocks_for;
use super::inode::{load_step, pointer_of, table_block, valid_node, DIRECT_BLOCKS, MAX_FILE_BYTES};
use super::mutation::{
    claim_missing, ensure_indirect_step, fill_from, fill_step, greater, indirect_bytes,
    indirect_gap, layout_step, overlaid, overlaps, published, write_at_step, write_indirect_step,
    write_step, Layout, TABLE_LEN,
};
use super::on_disk::BLOCK_BYTES;
use super::tree::{mark_kept, node_kept};
use super::volume::Volume;
use super::PROFILE_BLOCKS;

verus! {

/// Every node, and every block that was in use, is kept.
pub(crate) open spec fn unharmed(v: Volume, x: Volume) -> bool {
    &&& same_frame(v, x)
    &&& forall|node: NodeId| valid_node(node) ==> #[trigger] node_kept(v, x, node)
    &&& marks_grow(v, x)
    &&& forall|b: u32| #[trigger] ownable(v, b) ==> x.blocks[b as int] == v.blocks[b as int]
}

pub(crate) open spec fn unharms(v: Volume) -> spec_fn(Seq<Seq<u8>>) -> bool {
    |blocks: Seq<Seq<u8>>| unharmed(v, with_blocks(v, blocks))
}

pub(crate) proof fn lemma_unharmed_same(v: Volume)
    requires
        v.wf(),
    ensures
        unharmed(v, v),
        unharms(v)(v.blocks),
{
    assert(with_blocks(v, v.blocks) == v);
}

/// What matters is the blocks.
pub(crate) proof fn lemma_unharmed_at(v: Volume, u: Volume, x: Volume)
    requires
        unharmed(v, u),
        same_frame(v, x),
        x.blocks == u.blocks,
    ensures
        unharmed(v, x),
{
    assert forall|node: NodeId| valid_node(node) implies #[trigger] node_kept(v, x, node) by {
        assert(node_kept(v, u, node));
    }
}

/// Claiming a block harms nothing.
proof fn lemma_claim_unharmed(v: Volume, u: Volume)
    requires
        v.wf(),
        unharmed(v, u),
    ensures
        claim_block_step(u).result matches Ok(b) ==> {
            let w = claim_block_step(u).volume;
            &&& always(u, w, unharms(v))
            &&& unharmed(v, w)
            &&& !marked(bitmap_of(v), b as int)
            &&& !v.geometry.structural(b)
            &&& b < PROFILE_BLOCKS
        },
{
    law_claim_takes_a_free_block(u);
    reveal(claim_block_step);
    if let Ok(number) = claim_block_step(u).result {
        let m = v.geometry.block_bitmap;
        let old_bitmap = u.blocks[m as int];
        let bitmap = with_mark(old_bitmap, number as int, true);
        let r = u.read_for_update(m).volume;
        assert(v.geometry.structural(m) && m >= 2);
        lemma_mark_cut(r, m, bitmap, block_counter(), true);
        let w = claim_block_step(u).volume;
        let holds = |blocks: Seq<Seq<u8>>| touched(r, m, bitmap, blocks);
        let goal = unharms(v);
        assert forall|blocks: Seq<Seq<u8>>| #[trigger] holds(blocks) implies goal(blocks) by {
            let x = with_blocks(v, blocks);
            assert forall|node: NodeId| valid_node(node) implies #[trigger] node_kept(
                v,
                x,
                node,
            ) by {
                assert(node_kept(v, u, node));
                let t = table_block(v.geometry, node);
                assert(v.geometry.structural(t) && t != m && t >= 2);
                let i = v.geometry.inode_bitmap;
                assert(i != m && i >= 2);
            }
            assert forall|c: int|
                0 <= c < PROFILE_BLOCKS && #[trigger] marked(bitmap_of(v), c) implies marked(
                bitmap_of(x),
                c,
            ) by {
                assert(marked(bitmap_of(u), c));
                lemma_with_mark(old_bitmap, number as int, true, c);
            }
            assert forall|b: u32| #[trigger] ownable(v, b) implies x.blocks[b as int]
                == v.blocks[b as int] by {
                assert(b >= 2 && b != m);
            }
        }
        lemma_always_weaker(r, w, holds, goal);
        assert(holds(r.blocks));
        lemma_always_read(u, r, goal);
        lemma_always_both(u, r, w, goal);
        lemma_unharms_last(v, u, w);
    }
}

proof fn lemma_unharms_last(v: Volume, u: Volume, w: Volume)
    requires
        always(u, w, unharms(v)),
        same_frame(v, w),
    ensures
        unharmed(v, w),
        unharms(v)(w.blocks),
{
    assert(unharms(v)(cut(u, w.log, w.log.len() as int).blocks));
    lemma_unharmed_at(v, with_blocks(v, w.blocks), w);
}

/// Writing to a block that was not in use harms nothing.
proof fn lemma_write_unharmed(v: Volume, u: Volume, b: u32, bytes: Seq<u8>)
    requires
        v.wf(),
        unharmed(v, u),
        b < PROFILE_BLOCKS,
        !ownable(v, b),
        !v.geometry.structural(b),
        bytes.len() == BLOCK_BYTES,
        u.write_through(b, bytes).result is Ok,
    ensures
        always(u, u.write_through(b, bytes).volume, unharms(v)),
        unharmed(v, u.write_through(b, bytes).volume),
{
    lemma_write(u, b, bytes);
    let w = u.write_through(b, bytes).volume;
    assert forall|node: NodeId| valid_node(node) implies #[trigger] node_kept(v, w, node) by {
        assert(node_kept(v, u, node));
        assert(v.geometry.structural(table_block(v.geometry, node)));
        assert(v.geometry.structural(v.geometry.inode_bitmap));
    }
    assert(v.geometry.structural(v.geometry.block_bitmap));
    assert(bitmap_of(w) == bitmap_of(u));
    assert(unharmed(v, w));
    lemma_unharmed_at(v, u, with_blocks(v, u.blocks));
    lemma_unharmed_at(v, w, with_blocks(v, w.blocks));
    lemma_always_write(u, b, bytes, unharms(v));
}

/// Giving a file an indirect block harms nothing.
pub(crate) proof fn lemma_ensure_indirect_cut(v: Volume, u: Volume, layout: Layout, needed: int)
    requires
        v.wf(),
        unharmed(v, u),
        ensure_indirect_step(u, layout, needed).result is Ok,
    ensures
        always(u, ensure_indirect_step(u, layout, needed).volume, unharms(v)),
        unharmed(v, ensure_indirect_step(u, layout, needed).volume),
{
    lemma_unharmed_at(v, u, with_blocks(v, u.blocks));
    if needed > DIRECT_BLOCKS && layout.indirect == 0 {
        lemma_claim_unharmed(v, u);
        let b = claim_block_step(u).result->Ok_0;
        let u1 = claim_block_step(u).volume;
        lemma_write_unharmed(v, u1, b, zeros(BLOCK_BYTES as nat));
        let w = u1.write_through(b, zeros(BLOCK_BYTES as nat)).volume;
        lemma_always_both(u, u1, w, unharms(v));
    } else {
        lemma_always_read(u, u, unharms(v));
    }
}

/// Claiming blocks for a file harms nothing.
pub(crate) proof fn lemma_claim_missing_cut(
    v: Volume,
    u: Volume,
    data: Seq<u32>,
    logical: int,
    needed: int,
    zeroed: bool,
)
    requires
        v.wf(),
        unharmed(v, u),
        claim_missing(u, data, logical, needed, zeroed).result is Ok,
    ensures
        always(u, claim_missing(u, data, logical, needed, zeroed).volume, unharms(v)),
        unharmed(v, claim_missing(u, data, logical, needed, zeroed).volume),
    decreases needed - logical,
{
    let goal = unharms(v);
    lemma_unharmed_at(v, u, with_blocks(v, u.blocks));
    if logical >= needed {
        lemma_always_read(u, u, goal);
    } else if data[logical] != 0 {
        lemma_claim_missing_cut(v, u, data, logical + 1, needed, zeroed);
    } else {
        let w = claim_missing(u, data, logical, needed, zeroed).volume;
        lemma_claim_unharmed(v, u);
        let b = claim_block_step(u).result->Ok_0;
        let u1 = claim_block_step(u).volume;
        let blank = zeros(BLOCK_BYTES as nat);
        let u2 = if zeroed {
            u1.write_through(b, blank).volume
        } else {
            u1
        };
        if zeroed {
            lemma_write_unharmed(v, u1, b, blank);
            lemma_always_both(u, u1, u2, goal);
        }
        lemma_claim_missing_cut(v, u2, data.update(logical, b), logical + 1, needed, zeroed);
        lemma_always_both(u, u2, w, goal);
    }
}

/// A block of a file holds what it held, or what a write leaves in it.
pub(crate) open spec fn old_or_new(
    v: Volume,
    before: Seq<u32>,
    offset: int,
    src: Seq<u8>,
    b: u32,
    content: Seq<u8>,
) -> bool {
    content == v.blocks[b as int] || exists|l: int|
        0 <= l < TABLE_LEN && #[trigger] before[l] == b && overlaps(l, offset, src.len() as int)
            && content == overlaid(v.blocks[b as int], l, offset, src)
}

/// Every node is kept, and every block that was in use holds what it held or what a write leaves
/// in it.
pub(crate) open spec fn filling(
    v: Volume,
    before: Seq<u32>,
    offset: int,
    src: Seq<u8>,
    x: Volume,
) -> bool {
    &&& same_frame(v, x)
    &&& forall|node: NodeId| valid_node(node) ==> #[trigger] node_kept(v, x, node)
    &&& marks_grow(v, x)
    &&& forall|b: u32|
        #[trigger] ownable(v, b) ==> old_or_new(v, before, offset, src, b, x.blocks[b as int])
}

spec fn fills(v: Volume, before: Seq<u32>, offset: int, src: Seq<u8>) -> spec_fn(
    Seq<Seq<u8>>,
) -> bool {
    |blocks: Seq<Seq<u8>>| filling(v, before, offset, src, with_blocks(v, blocks))
}

proof fn lemma_filling_at(
    v: Volume,
    before: Seq<u32>,
    offset: int,
    src: Seq<u8>,
    u: Volume,
    x: Volume,
)
    requires
        filling(v, before, offset, src, u),
        same_frame(v, x),
        x.blocks == u.blocks,
    ensures
        filling(v, before, offset, src, x),
{
    assert forall|node: NodeId| valid_node(node) implies #[trigger] node_kept(v, x, node) by {
        assert(node_kept(v, u, node));
    }
}

/// Filling a file's blocks, cut short.
proof fn lemma_fill_cut(
    v: Volume,
    u: Volume,
    before: Seq<u32>,
    layout: Layout,
    offset: int,
    src: Seq<u8>,
    logical: int,
    needed: int,
)
    requires
        v.wf(),
        filling(v, before, offset, src, u),
        sound(u, layout),
        before.len() == TABLE_LEN,
        0 <= offset,
        0 <= logical <= needed <= TABLE_LEN,
        forall|i: int| logical <= i < needed ==> #[trigger] layout.data[i] != 0,
        forall|i: int|
            logical <= i < needed && #[trigger] before[i] != 0 ==> layout.data[i] == before[i]
                && u.blocks[before[i] as int] == v.blocks[before[i] as int],
        forall|i: int|
            logical <= i < needed && before[i] == 0 ==> !marked(
                bitmap_of(v),
                #[trigger] layout.data[i] as int,
            ),
        fill_from(u, before, layout.data, offset, src, logical, needed).result is Ok,
    ensures
        ({
            let w = fill_from(u, before, layout.data, offset, src, logical, needed).volume;
            always(u, w, fills(v, before, offset, src)) && filling(v, before, offset, src, w)
        }),
    decreases needed - logical,
{
    let goal = fills(v, before, offset, src);
    lemma_filling_at(v, before, offset, src, u, with_blocks(v, u.blocks));
    if logical >= needed {
        lemma_always_read(u, u, goal);
    } else {
        let w = fill_from(u, before, layout.data, offset, src, logical, needed).volume;
        let target = layout.data[logical];
        assert(ownable(u, target));
        let s = fill_step(u, before, layout.data, offset, src, logical);
        let u1 = s.volume;
        let reached = overlaps(logical, offset, src.len() as int);
        if !reached && before[logical] != 0 {
            assert(u1 == u);
            lemma_fill_cut(v, u, before, layout, offset, src, logical + 1, needed);
        } else {
            let base = if before[logical] == 0 {
                zeros(BLOCK_BYTES as nat)
            } else {
                v.blocks[target as int]
            };
            let content = if reached {
                overlaid(base, logical, offset, src)
            } else {
                base
            };
            let r = if reached && before[logical] != 0 {
                u.ticked()
            } else {
                u
            };
            if before[logical] != 0 {
                assert(u.blocks[target as int] == v.blocks[target as int]);
            }
            assert(s == r.write_through(target, content));
            assert(content.len() == BLOCK_BYTES);
            lemma_write(r, target, content);
            assert(u1.blocks == u.blocks.update(target as int, content));
            assert(v.geometry.structural(v.geometry.block_bitmap));
            assert(v.geometry.structural(v.geometry.inode_bitmap));
            assert(bitmap_of(u1) == bitmap_of(u));
            assert forall|node: NodeId| valid_node(node) implies #[trigger] node_kept(
                v,
                u1,
                node,
            ) by {
                assert(node_kept(v, u, node));
                assert(v.geometry.structural(table_block(v.geometry, node)));
            }
            assert forall|b: u32| #[trigger] ownable(v, b) implies old_or_new(
                v,
                before,
                offset,
                src,
                b,
                u1.blocks[b as int],
            ) by {
                if b == target {
                    assert(before[logical] == b);
                } else {
                    assert(old_or_new(v, before, offset, src, b, u.blocks[b as int]));
                }
            }
            assert(filling(v, before, offset, src, u1));
            lemma_filling_at(v, before, offset, src, u1, with_blocks(v, u1.blocks));
            lemma_always_read(u, r, goal);
            lemma_always_write(r, target, content, goal);
            lemma_always_both(u, r, u1, goal);
            assert(sound(u1, layout)) by {
                assert forall|i: int| 0 <= i < TABLE_LEN && #[trigger] layout.data[i] != 0
                    implies ownable(u1, layout.data[i]) && layout.data[i] != layout.indirect by {
                    assert(ownable(u, layout.data[i]));
                }
            }
            assert forall|i: int| logical + 1 <= i < needed && #[trigger] before[i] != 0 implies
                layout.data[i] == before[i] && u1.blocks[before[i] as int]
                == v.blocks[before[i] as int] by {
                assert(layout.data[logical] != layout.data[i]);
                assert(ownable(u, layout.data[i]));
            }
            lemma_fill_cut(v, u1, before, layout, offset, src, logical + 1, needed);
            lemma_always_both(u, u1, w, goal);
        }
    }
}

/// Each byte of a file is what it was, or what a write says.
pub open spec fn bytes_old_or_new(
    v: Volume,
    node: NodeId,
    offset: int,
    src: Seq<u8>,
    x: Volume,
) -> bool {
    forall|i: int|
        0 <= i < file_len(v, node) ==> (#[trigger] contents(x, node)[i] == contents(v, node)[i]
            || offset <= i < offset + src.len() && contents(x, node)[i] == src[i - offset])
}

/// What a write that was cut short leaves: the file is sound and has the length that it had, and
/// each of its bytes is what it was or what the write says. Other nodes keep their records and
/// marks, and blocks that were in use outside the file their content and marks.
pub open spec fn half_written(
    v: Volume,
    node: NodeId,
    offset: int,
    src: Seq<u8>,
    x: Volume,
) -> bool {
    &&& same_frame(v, x)
    &&& healthy_file(x, node)
    &&& file_len(x, node) == file_len(v, node)
    &&& bytes_old_or_new(v, node, offset, src, x)
    &&& mark_kept(v, x, node)
    &&& marks_grow(v, x)
    &&& forall|other: NodeId|
        valid_node(other) && other != node ==> #[trigger] node_kept(v, x, other)
    &&& forall|b: u32|
        #[trigger] ownable(v, b) && !owns(file_layout(v, node), b as int) ==> x.blocks[b as int]
            == v.blocks[b as int]
}

/// A byte of a block that a write was put into.
proof fn lemma_overlaid(base: Seq<u8>, l: int, offset: int, src: Seq<u8>, at: int)
    requires
        base.len() == BLOCK_BYTES,
        0 <= at < BLOCK_BYTES,
        0 <= offset,
        overlaps(l, offset, src.len() as int),
    ensures
        ({
            let i = l * BLOCK_BYTES + at;
            let content = overlaid(base, l, offset, src);
            content[at] == base[at] || offset <= i < offset + src.len() && content[at] == src[i
                - offset]
        }),
{
}

/// Filling a file's blocks leaves it half written.
pub(crate) proof fn lemma_filling_file(
    v: Volume,
    node: NodeId,
    offset: int,
    src: Seq<u8>,
    x: Volume,
)
    requires
        healthy_file(v, node),
        0 <= offset,
        filling(v, file_layout(v, node).data, offset, src, x),
    ensures
        half_written(v, node, offset, src, x),
{
    let layout = file_layout(v, node);
    let before = layout.data;
    assert(node_kept(v, x, node));
    if layout.indirect != 0 {
        assert(ownable(v, layout.indirect));
        assert(old_or_new(
            v,
            before,
            offset,
            src,
            layout.indirect,
            x.blocks[layout.indirect as int],
        ));
        assert(x.blocks[layout.indirect as int] == v.blocks[layout.indirect as int]) by {
            if x.blocks[layout.indirect as int] != v.blocks[layout.indirect as int] {
                let l = choose|l: int|
                    0 <= l < TABLE_LEN && #[trigger] before[l] == layout.indirect && overlaps(
                        l,
                        offset,
                        src.len() as int,
                    );
                assert(before[l] != 0);
            }
        }
    }
    assert(file_layout(x, node) == layout);
    assert(sound(x, layout)) by {
        assert forall|i: int| 0 <= i < TABLE_LEN && #[trigger] before[i] != 0 implies ownable(
            x,
            before[i],
        ) && before[i] != layout.indirect by {
            assert(ownable(v, before[i]));
        }
    }
    assert(file_len(v, node) <= MAX_FILE_BYTES);
    assert forall|i: int| 0 <= i < file_len(v, node) implies (#[trigger] contents(x, node)[i]
        == contents(v, node)[i] || offset <= i < offset + src.len() && contents(x, node)[i]
        == src[i - offset]) by {
        let l = i / (BLOCK_BYTES as int);
        let at = i % (BLOCK_BYTES as int);
        assert(l * BLOCK_BYTES + at == i && 0 <= l < TABLE_LEN);
        if before[l] != 0 {
            let b = before[l];
            assert(ownable(v, b));
            let content = x.blocks[b as int];
            assert(old_or_new(v, before, offset, src, b, content));
            if content != v.blocks[b as int] {
                let k = choose|k: int|
                    0 <= k < TABLE_LEN && #[trigger] before[k] == b && overlaps(
                        k,
                        offset,
                        src.len() as int,
                    ) && content == overlaid(v.blocks[b as int], k, offset, src);
                assert(k == l) by {
                    if k < l {
                        assert(before[k] != before[l]);
                    } else if l < k {
                        assert(before[l] != before[k]);
                    }
                }
                lemma_overlaid(v.blocks[b as int], l, offset, src, at);
            }
        }
    }
    assert forall|b: u32|
        #[trigger] ownable(v, b) && !owns(layout, b as int) implies x.blocks[b as int]
        == v.blocks[b as int] by {
        assert(old_or_new(v, before, offset, src, b, x.blocks[b as int]));
        if x.blocks[b as int] != v.blocks[b as int] {
            let l = choose|l: int|
                0 <= l < TABLE_LEN && #[trigger] before[l] == b && overlaps(
                    l,
                    offset,
                    src.len() as int,
                );
            assert(owns(layout, b as int));
        }
    }
}

/// What matters is the blocks.
proof fn lemma_half_written_at(
    v: Volume,
    node: NodeId,
    offset: int,
    src: Seq<u8>,
    u: Volume,
    x: Volume,
)
    requires
        half_written(v, node, offset, src, u),
        same_frame(v, x),
        x.blocks == u.blocks,
    ensures
        half_written(v, node, offset, src, x),
{
    lemma_same_blocks(u, x, node);
    assert forall|other: NodeId| valid_node(other) && other != node implies #[trigger] node_kept(
        v,
        x,
        other,
    ) by {
        assert(node_kept(v, u, other));
    }
    assert forall|i: int| 0 <= i < file_len(v, node) implies (#[trigger] contents(x, node)[i]
        == contents(v, node)[i] || offset <= i < offset + src.len() && contents(x, node)[i]
        == src[i - offset]) by {
        assert(contents(u, node)[i] == contents(x, node)[i]);
    }
}

/// Writing to a block that was not in use leaves a file as it is.
proof fn lemma_filling_write(
    v: Volume,
    before: Seq<u32>,
    offset: int,
    src: Seq<u8>,
    u: Volume,
    w: Volume,
    b: u32,
    bytes: Seq<u8>,
)
    requires
        v.wf(),
        filling(v, before, offset, src, u),
        b < PROFILE_BLOCKS,
        !ownable(v, b),
        !v.geometry.structural(b),
        same_frame(u, w),
        w.blocks == u.blocks.update(b as int, bytes),
    ensures
        filling(v, before, offset, src, w),
{
    assert(v.geometry.structural(v.geometry.inode_bitmap));
    assert(v.geometry.structural(v.geometry.block_bitmap));
    assert(bitmap_of(w) == bitmap_of(u));
    assert forall|node: NodeId| valid_node(node) implies #[trigger] node_kept(v, w, node) by {
        assert(node_kept(v, u, node));
        assert(v.geometry.structural(table_block(v.geometry, node)));
    }
    assert forall|c: u32| #[trigger] ownable(v, c) implies old_or_new(
        v,
        before,
        offset,
        src,
        c,
        w.blocks[c as int],
    ) by {
        assert(old_or_new(v, before, offset, src, c, u.blocks[c as int]));
    }
}

/// Writing the indirect block that a file had gives it the blocks that were claimed, which hold
/// zeros or what the write says.
#[verifier::rlimit(40)]
proof fn lemma_indirect_written(
    v: Volume,
    node: NodeId,
    offset: int,
    src: Seq<u8>,
    needed: int,
    after: Layout,
    u: Volume,
    w: Volume,
)
    requires
        healthy_file(v, node),
        0 <= offset,
        filling(v, file_layout(v, node).data, offset, src, u),
        sound(u, after),
        after.indirect == file_layout(v, node).indirect,
        after.indirect != 0,
        blocks_for(file_len(v, node)) <= needed <= TABLE_LEN,
        forall|i: int|
            0 <= i < TABLE_LEN && (file_layout(v, node).data[i] != 0 || i >= needed)
                ==> #[trigger] after.data[i] == file_layout(v, node).data[i],
        forall|i: int|
            0 <= i < needed && file_layout(v, node).data[i] == 0 ==> !marked(
                bitmap_of(v),
                #[trigger] after.data[i] as int,
            ) && u.blocks[after.data[i] as int] == (if overlaps(i, offset, src.len() as int) {
                overlaid(zeros(BLOCK_BYTES as nat), i, offset, src)
            } else {
                zeros(BLOCK_BYTES as nat)
            }),
        same_frame(u, w),
        w.blocks == u.blocks.update(after.indirect as int, indirect_bytes(after.data)),
    ensures
        half_written(v, node, offset, src, w),
{
    lemma_filling_file(v, node, offset, src, u);
    let layout = file_layout(v, node);
    let before = layout.data;
    let record = file_record(v, node);
    let inner = after.indirect;
    assert(ownable(v, inner));
    assert(v.geometry.structural(v.geometry.inode_bitmap));
    assert(v.geometry.structural(v.geometry.block_bitmap));
    assert(bitmap_of(w) == bitmap_of(u));
    assert forall|other: NodeId| valid_node(other) implies #[trigger] node_kept(v, w, other) by {
        assert(node_kept(v, u, other));
        assert(v.geometry.structural(table_block(v.geometry, other)));
    }
    assert(node_kept(v, w, node));
    let now = file_layout(w, node);
    assert(now.indirect == inner);
    assert forall|i: int| 0 <= i < TABLE_LEN implies #[trigger] now.data[i] == (if i
        < DIRECT_BLOCKS {
        before[i]
    } else {
        after.data[i]
    }) by {
        if i < DIRECT_BLOCKS {
            assert(pointer_of(record, i) == before[i]);
        } else {
            lemma_indirect_bytes(after.data, i - DIRECT_BLOCKS);
        }
    }
    assert forall|i: int| 0 <= i < TABLE_LEN && #[trigger] now.data[i] != 0 implies now.data[i]
        == after.data[i] by {
        if i < DIRECT_BLOCKS {
            assert(before[i] != 0);
            assert(after.data[i] == before[i]);
        }
    }
    assert(sound(w, now)) by {
        assert forall|i: int| 0 <= i < TABLE_LEN && #[trigger] now.data[i] != 0 implies ownable(
            w,
            now.data[i],
        ) && now.data[i] != now.indirect by {
            assert(now.data[i] == after.data[i]);
            assert(ownable(u, after.data[i]));
        }
        assert forall|i: int, j: int|
            0 <= i < j < TABLE_LEN && #[trigger] now.data[i] != 0 implies now.data[i]
            != #[trigger] now.data[j] by {
            assert(now.data[i] == after.data[i]);
            if now.data[j] != 0 {
                assert(now.data[j] == after.data[j]);
                assert(after.data[i] != after.data[j]);
            }
        }
        assert(ownable(u, inner));
    }
    assert(healthy_file(w, node));
    assert(file_len(v, node) <= MAX_FILE_BYTES);
    assert forall|i: int| 0 <= i < file_len(v, node) implies (#[trigger] contents(w, node)[i]
        == contents(v, node)[i] || offset <= i < offset + src.len() && contents(w, node)[i]
        == src[i - offset]) by {
        let l = i / (BLOCK_BYTES as int);
        let at = i % (BLOCK_BYTES as int);
        assert(l * BLOCK_BYTES + at == i && 0 <= l < needed);
        if before[l] != 0 {
            assert(ownable(v, before[l]) && before[l] != inner);
            assert(now.data[l] == before[l]) by {
                assert(after.data[l] == before[l]);
            }
            assert(contents(w, node)[i] == contents(u, node)[i]);
        } else if now.data[l] != 0 {
            let b = after.data[l];
            assert(now.data[l] == b);
            assert(ownable(u, b) && b != inner);
            assert(w.blocks[b as int] == u.blocks[b as int]);
            if overlaps(l, offset, src.len() as int) {
                lemma_overlaid(zeros(BLOCK_BYTES as nat), l, offset, src, at);
            }
        }
    }
    assert forall|b: u32|
        #[trigger] ownable(v, b) && !owns(layout, b as int) implies w.blocks[b as int]
        == v.blocks[b as int] by {
        assert(owns(layout, inner as int));
        assert(u.blocks[b as int] == v.blocks[b as int]);
    }
}

spec fn half_writes(v: Volume, node: NodeId, offset: int, src: Seq<u8>, w: Volume) -> spec_fn(
    Seq<Seq<u8>>,
) -> bool {
    |blocks: Seq<Seq<u8>>|
        blocks == w.blocks || half_written(v, node, offset, src, with_blocks(v, blocks))
}

#[verifier::rlimit(60)]
proof fn lemma_write_cut(v: Volume, node: NodeId, offset: int, src: Seq<u8>)
    requires
        healthy_file(v, node),
        src.len() > 0,
        0 <= offset,
        offset + src.len() <= MAX_FILE_BYTES,
        write_step(v, node, file_record(v, node), offset, src).result is Ok,
    ensures
        ({
            let w = write_step(v, node, file_record(v, node), offset, src).volume;
            always(v, w, half_writes(v, node, offset, src, w))
        }),
{
    reveal(write_step);
    let record = file_record(v, node);
    let w = write_step(v, node, record, offset, src).volume;
    let size = greater(file_len(v, node), offset + src.len());
    let needed = blocks_for(size);
    let before = file_layout(v, node);
    let goal = half_writes(v, node, offset, src, w);
    let calm = unharms(v);
    let s1 = layout_step(v, record);
    let v1 = s1.volume;
    assert(s1.result->Ok_0 == before);
    lemma_unharmed_same(v);
    lemma_always_read(v, v1, calm);
    lemma_unharmed_at(v, v, v1);
    assert(sound(v1, before)) by {
        assert forall|i: int| 0 <= i < TABLE_LEN && #[trigger] before.data[i] != 0 implies ownable(
            v1,
            before.data[i],
        ) && before.data[i] != before.indirect by {
            assert(ownable(v, before.data[i]));
        }
    }
    lemma_ensure_indirect(v1, before, needed);
    lemma_ensure_indirect_cut(v, v1, before, needed);
    let rooted = ensure_indirect_step(v1, before, needed).result->Ok_0;
    let v2 = ensure_indirect_step(v1, before, needed).volume;
    lemma_always_both(v, v1, v2, calm);
    assert(needed <= TABLE_LEN);
    lemma_claim_missing(v2, rooted, 0, needed, false);
    lemma_claim_missing_cut(v, v2, rooted.data, 0, needed, false);
    let data = claim_missing(v2, rooted.data, 0, needed, false).result->Ok_0;
    let v3 = claim_missing(v2, rooted.data, 0, needed, false).volume;
    lemma_always_both(v, v2, v3, calm);
    let after = Layout { indirect: rooted.indirect, data };
    lemma_fill(v3, after, before.data, offset, src, 0, needed);
    assert(filling(v, before.data, offset, src, v3)) by {
        assert forall|b: u32| #[trigger] ownable(v, b) implies old_or_new(
            v,
            before.data,
            offset,
            src,
            b,
            v3.blocks[b as int],
        ) by {}
    }
    assert forall|i: int| 0 <= i < TABLE_LEN && #[trigger] before.data[i] != 0 implies data[i]
        == before.data[i] && v3.blocks[before.data[i] as int] == v.blocks[before.data[i] as int] by {
        assert(rooted.data[i] != 0);
        assert(ownable(v, before.data[i]));
    }
    assert forall|i: int| 0 <= i < needed && before.data[i] == 0 implies !marked(
        bitmap_of(v),
        #[trigger] data[i] as int,
    ) by {
        assert(rooted.data[i] == 0);
        if marked(bitmap_of(v), data[i] as int) {
            assert(ownable(v3, data[i]));
            assert(marked(bitmap_of(v2), data[i] as int));
        }
    }
    lemma_fill_cut(v, v3, before.data, after, offset, src, 0, needed);
    let fill = fills(v, before.data, offset, src);
    let v4 = fill_from(v3, before.data, data, offset, src, 0, needed).volume;
    assert forall|blocks: Seq<Seq<u8>>| #[trigger] calm(blocks) implies goal(blocks) by {
        let x = with_blocks(v, blocks);
        assert(filling(v, before.data, offset, src, x)) by {
            assert forall|b: u32| #[trigger] ownable(v, b) implies old_or_new(
                v,
                before.data,
                offset,
                src,
                b,
                x.blocks[b as int],
            ) by {}
        }
        lemma_filling_file(v, node, offset, src, x);
    }
    lemma_always_weaker(v, v3, calm, goal);
    assert forall|blocks: Seq<Seq<u8>>| #[trigger] fill(blocks) implies goal(blocks) by {
        lemma_filling_file(v, node, offset, src, with_blocks(v, blocks));
    }
    lemma_always_weaker(v3, v4, fill, goal);
    lemma_always_both(v, v3, v4, goal);
    lemma_filling_at(v, before.data, offset, src, v4, with_blocks(v, v4.blocks));
    assert(goal(v4.blocks)) by {
        assert(fill(v4.blocks));
    }
    let dirty = indirect_gap(before.data, needed);
    let v5 = write_indirect_step(v4, after, dirty).volume;
    lemma_write_indirect_cut(v, node, offset, src, needed, after, v3, v4, v5);
    lemma_half_written_at(v, node, offset, src, v5, with_blocks(v, v5.blocks));
    lemma_always_both_writes(v, v4, v5, after, dirty, goal);
    let image = published(record, after, size);
    lemma_store_cut(v5, node, image);
    lemma_always_weaker(v5, w, either(v5, w), goal);
    lemma_always_both(v, v5, w, goal);
}

/// Writing the indirect block, if it changed, is done as a whole.
pub(crate) proof fn lemma_always_both_writes(
    v: Volume,
    u: Volume,
    w: Volume,
    layout: Layout,
    dirty: bool,
    holds: spec_fn(Seq<Seq<u8>>) -> bool,
)
    requires
        always(v, u, holds),
        write_indirect_step(u, layout, dirty).result is Ok,
        w == write_indirect_step(u, layout, dirty).volume,
        u.wf(),
        holds(u.blocks),
        holds(w.blocks),
    ensures
        always(v, w, holds),
{
    if dirty {
        lemma_write(u, layout.indirect, indirect_bytes(layout.data));
        lemma_always_write(u, layout.indirect, indirect_bytes(layout.data), holds);
        lemma_always_both(v, u, w, holds);
    }
}

pub(crate) proof fn lemma_write_indirect_cut(
    v: Volume,
    node: NodeId,
    offset: int,
    src: Seq<u8>,
    needed: int,
    after: Layout,
    v3: Volume,
    u: Volume,
    w: Volume,
)
    requires
        healthy_file(v, node),
        0 <= offset,
        filling(v, file_layout(v, node).data, offset, src, u),
        sound(v3, after),
        same_frame(v3, u),
        same_frame(v, u),
        after.indirect != file_layout(v, node).indirect ==> !marked(
            bitmap_of(v),
            after.indirect as int,
        ) && file_layout(v, node).indirect == 0,
        needed > DIRECT_BLOCKS ==> after.indirect != 0,
        blocks_for(file_len(v, node)) <= needed <= TABLE_LEN,
        forall|i: int|
            0 <= i < TABLE_LEN && (file_layout(v, node).data[i] != 0 || i >= needed)
                ==> #[trigger] after.data[i] == file_layout(v, node).data[i],
        forall|i: int| 0 <= i < needed ==> #[trigger] after.data[i] != 0,
        forall|i: int|
            0 <= i < needed && file_layout(v, node).data[i] == 0 ==> !marked(
                bitmap_of(v),
                #[trigger] after.data[i] as int,
            ),
        forall|i: int|
            0 <= i < needed ==> u.blocks[#[trigger] after.data[i] as int] == filled_block(
                v3,
                file_layout(v, node).data,
                after.data,
                offset,
                src,
                i,
            ),
        forall|c: int|
            0 <= c < PROFILE_BLOCKS && (forall|i: int|
                0 <= i < needed ==> #[trigger] after.data[i] != c) ==> #[trigger] u.blocks[c]
                == v3.blocks[c],
        ({
            let dirty = indirect_gap(file_layout(v, node).data, needed);
            let s = write_indirect_step(u, after, dirty);
            s.result is Ok && s.volume == w
        }),
    ensures
        half_written(v, node, offset, src, w),
        w.wf(),
        same_frame(v, w),
{
    let before = file_layout(v, node);
    let dirty = indirect_gap(before.data, needed);
    if dirty {
        let i = choose|i: int| DIRECT_BLOCKS <= i < needed && #[trigger] before.data[i] == 0;
        assert(needed > DIRECT_BLOCKS);
        assert(ownable(v3, after.indirect));
        lemma_write(u, after.indirect, indirect_bytes(after.data));
        let bb = v.geometry.block_bitmap;
        assert(v.geometry.structural(bb));
        assert forall|k: int| 0 <= k < needed implies #[trigger] after.data[k] != bb by {
            assert(ownable(v3, after.data[k]));
        }
        assert(bitmap_of(u) == bitmap_of(v3));
        assert(sound(u, after)) by {
            assert forall|k: int| 0 <= k < TABLE_LEN && #[trigger] after.data[k] != 0 implies ownable(
                u,
                after.data[k],
            ) && after.data[k] != after.indirect by {
                assert(ownable(v3, after.data[k]));
            }
        }
        if after.indirect == before.indirect {
            lemma_indirect_written(v, node, offset, src, needed, after, u, w);
        } else {
            lemma_filling_write(
                v,
                before.data,
                offset,
                src,
                u,
                w,
                after.indirect,
                indirect_bytes(after.data),
            );
            lemma_filling_file(v, node, offset, src, w);
        }
    } else {
        lemma_filling_file(v, node, offset, src, u);
    }
}

/// A write that is cut short by a loss of power leaves the file sound, with its length and each
/// of its bytes as they were or as the write says, unless all is done. Nothing else that was in
/// use has changed.
pub proof fn law_an_interrupted_write_is_harmless(
    v: Volume,
    node: NodeId,
    offset: u64,
    src: Seq<u8>,
    k: int,
)
    requires
        healthy_file(v, node),
        write_at_step(v, node, offset, src).result is Ok,
        v.log.len() <= k <= write_at_step(v, node, offset, src).volume.log.len(),
    ensures
        ({
            let w = write_at_step(v, node, offset, src).volume;
            let x = cut(v, w.log, k);
            half_written(v, node, offset as int, src, x) || x.blocks == w.blocks
        }),
{
    let w = write_at_step(v, node, offset, src).volume;
    let u = load_step(v, node).volume;
    assert(u == v.ticked());
    lemma_same_blocks(v, u, node);
    if src.len() == 0 {
        assert(w.log.subrange(v.log.len() as int, k) =~= Seq::empty());
    } else {
        lemma_write_cut(u, node, offset as int, src);
        let x = cut(u, w.log, k);
        assert(half_writes(u, node, offset as int, src, w)(x.blocks));
        if x.blocks != w.blocks {
            let y = cut(v, w.log, k);
            lemma_half_written_at(
                u,
                node,
                offset as int,
                src,
                with_blocks(u, x.blocks),
                with_blocks(u, y.blocks),
            );
            lemma_half_written_from(v, u, node, offset as int, src, y);
        }
    }
}

proof fn lemma_half_written_from(
    v: Volume,
    u: Volume,
    node: NodeId,
    offset: int,
    src: Seq<u8>,
    x: Volume,
)
    requires
        healthy_file(v, node),
        u == v.ticked(),
        same_frame(v, x),
        half_written(u, node, offset, src, with_blocks(u, x.blocks)),
    ensures
        half_written(v, node, offset, src, x),
{
    let y = with_blocks(u, x.blocks);
    lemma_same_blocks(v, u, node);
    lemma_same_blocks(y, x, node);
    assert forall|other: NodeId| valid_node(other) && other != node implies #[trigger] node_kept(
        v,
        x,
        other,
    ) by {
        assert(node_kept(u, y, other));
    }
    assert forall|i: int| 0 <= i < file_len(v, node) implies (#[trigger] contents(x, node)[i]
        == contents(v, node)[i] || offset <= i < offset + src.len() && contents(x, node)[i]
        == src[i - offset]) by {
        assert(contents(y, node)[i] == contents(x, node)[i]);
    }
    assert forall|b: u32|
        #[trigger] ownable(v, b) && !owns(file_layout(v, node), b as int) implies x.blocks[b as int]
        == v.blocks[b as int] by {
        assert(ownable(u, b));
    }
}

} // verus!
