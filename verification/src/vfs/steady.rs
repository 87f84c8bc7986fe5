//! A file system on a device that carries out every request, as long as nothing is written.
use vstd::prelude::*;

use crate::block::BlockDevice;
use crate::ext2::Ext2;
use crate::ext2::contents::{contents, file_len, healthy_file, lemma_same_blocks, no_holes};
use crate::ext2::directory::lookup_step;
use crate::ext2::inode::metadata_step;
use crate::ext2::laws::law_reading_changes_nothing;
use crate::ext2::space::law_a_read_succeeds;
use crate::ext2::tree::{lemma_look_again, same_content};
use crate::ext2::volume::{answering, Volume};
use crate::fs::NodeId;

use super::canonical::{steady, Tree};
use super::read::reads_back;
use super::resolve::READ_BUFFER_BYTES;
use super::{seen, FileSystem, FsError};

verus! {

/// A mounted file system holds what `v` holds, and its device carries out every request.
pub open spec fn holding(v: Volume) -> spec_fn(Volume) -> bool {
    |w: Volume| same_content(v, w) && answering(w) && w.readable() is Ok
}

/// What a file system says of its nodes.
pub open spec fn tree_of(v: Volume) -> Tree {
    Tree {
        metadata: |node: NodeId| seen(metadata_step(v, node)).result,
        lookup: |dir: NodeId, name: Seq<u8>| seen(lookup_step(v, dir, name)).result,
    }
}

proof fn lemma_metadata<D: BlockDevice>(v: Volume, w: Volume, node: NodeId)
    requires
        holding(v)(v),
        holding(v)(w),
    ensures
        ({
            let looked = <Ext2<D> as FileSystem>::metadata_step(w, node);
            &&& looked.result == (tree_of(v).metadata)(node)
            &&& holding(v)(looked.model)
        }),
{
    lemma_look_again(v, w, node, Seq::empty());
}

proof fn lemma_lookup<D: BlockDevice>(v: Volume, w: Volume, dir: NodeId, name: Seq<u8>)
    requires
        holding(v)(v),
        holding(v)(w),
    ensures
        ({
            let looked = <Ext2<D> as FileSystem>::lookup_step(w, dir, name);
            &&& looked.result == (tree_of(v).lookup)(dir, name)
            &&& holding(v)(looked.model)
        }),
{
    lemma_look_again(v, w, dir, name);
}

/// As long as nothing is written and the device carries out every request, looking at a mounted
/// file system gives the same again.
pub proof fn law_looking_gives_the_same_again<D: BlockDevice>(v: Volume)
    requires
        holding(v)(v),
    ensures
        steady::<Ext2<D>>(holding(v), tree_of(v)),
{
    let keeps = holding(v);
    let tree = tree_of(v);
    assert forall|w: Volume, node: NodeId| keeps(w) implies {
        let looked = #[trigger] <Ext2<D> as FileSystem>::metadata_step(w, node);
        looked.result == (tree.metadata)(node) && keeps(looked.model)
    } by {
        lemma_metadata::<D>(v, w, node);
    }
    assert forall|w: Volume, dir: NodeId, name: Seq<u8>| keeps(w) implies {
        let looked = #[trigger] <Ext2<D> as FileSystem>::lookup_step(w, dir, name);
        looked.result == (tree.lookup)(dir, name) && keeps(looked.model)
    } by {
        lemma_lookup::<D>(v, w, dir, name);
    }
}

proof fn lemma_read<D: BlockDevice>(
    v: Volume,
    w: Volume,
    node: NodeId,
    offset: u64,
    dst: Seq<u8>,
)
    requires
        healthy_file(v, node),
        no_holes(v, node, 0, file_len(v, node)),
        holding(v)(w),
        0 < dst.len() <= READ_BUFFER_BYTES,
        offset + dst.len() <= contents(v, node).len(),
    ensures
        ({
            let (read, after) = <Ext2<D> as FileSystem>::read_at_step(w, node, offset, dst);
            &&& read.result == Ok::<usize, FsError>(dst.len() as usize)
            &&& after == contents(v, node).subrange(offset as int, offset + dst.len())
            &&& holding(v)(read.model)
        }),
{
    lemma_same_blocks(v, w, node);
    assert(no_holes(w, node, offset as int, offset + dst.len()));
    law_a_read_succeeds(w, node, offset, dst);
    law_reading_changes_nothing(w, node, Seq::empty(), offset, dst);
}

/// As long as nothing is written and the device carries out every request, reading within a
/// healthy file that has no holes gives what it holds.
pub proof fn law_reading_gives_the_contents_again<D: BlockDevice>(v: Volume, node: NodeId)
    requires
        healthy_file(v, node),
        no_holes(v, node, 0, file_len(v, node)),
    ensures
        reads_back::<Ext2<D>>(holding(v), node, contents(v, node)),
{
    let keeps = holding(v);
    let whole = contents(v, node);
    assert forall|w: Volume, offset: u64, dst: Seq<u8>|
        keeps(w) && 0 < dst.len() <= READ_BUFFER_BYTES && offset + dst.len() <= whole.len() implies {
        let (read, after) = #[trigger] <Ext2<D> as FileSystem>::read_at_step(w, node, offset, dst);
        &&& read.result == Ok::<usize, FsError>(dst.len() as usize)
        &&& after == whole.subrange(offset as int, offset + dst.len())
        &&& keeps(read.model)
    } by {
        lemma_read::<D>(v, w, node, offset, dst);
    }
}

} // verus!
