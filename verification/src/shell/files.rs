//! What the commands that make and remove files leave in the directories.
use vstd::prelude::*;

use crate::block::BlockDevice;
use crate::ext2::contents::file_layout;
use crate::ext2::directory::{find, lookup_step, only_read};
use crate::ext2::inode::metadata_step;
use crate::ext2::laws::law_reading_changes_nothing;
use crate::ext2::removal::{law_a_removed_file_is_gone, misses, no_links};
use crate::ext2::tree::{apart, entries, healthy_dir, lemma_reread};
use crate::ext2::volume::Volume;
use crate::ext2::Ext2;
use crate::fs::NodeKind;
use crate::vfs::change::{create_file_step, entry_name, leaf_of, parent_step};
use crate::vfs::FileSystem;

use super::commands::{execute_step, CommandView, ShellState};

verus! {

/// A file is made in the directory that its path leads into, under the last name of the path; the
/// name is one that an entry can have. Nothing is shown.
pub proof fn law_touch_makes_the_file_in_its_directory<F: FileSystem>(
    s: ShellState<F::Model>,
    path: Seq<u8>,
)
    requires
        create_file_step::<F>(s.model, s.cwd, path).result is Ok,
    ensures
        ({
            let (r, t) = execute_step::<F>(s, CommandView::Touch { path });
            let at = parent_step::<F>(s.model, s.cwd, path);
            let made = F::create_file_step(at.model, at.result->Ok_0, leaf_of(path));
            &&& r is Ok && at.result is Ok && made.result is Ok
            &&& entry_name(leaf_of(path))
            &&& t == ShellState { model: made.model, ..s }
        }),
{
}

/// A directory is made in the directory that its path leads into, under the last name of the path;
/// the name is one that an entry can have. Nothing is shown.
pub proof fn law_mkdir_makes_the_directory_in_its_directory<F: FileSystem>(
    s: ShellState<F::Model>,
    path: Seq<u8>,
)
    requires
        execute_step::<F>(s, CommandView::Mkdir { path }).0 is Ok,
    ensures
        ({
            let (r, t) = execute_step::<F>(s, CommandView::Mkdir { path });
            let at = parent_step::<F>(s.model, s.cwd, path);
            let made = F::create_dir_step(at.model, at.result->Ok_0, leaf_of(path));
            &&& at.result is Ok && made.result is Ok
            &&& entry_name(leaf_of(path))
            &&& t == ShellState { model: made.model, ..s }
        }),
{
}

proof fn lemma_rm<F: FileSystem>(s: ShellState<F::Model>, path: Seq<u8>)
    requires
        execute_step::<F>(s, CommandView::Rm { path }).0 is Ok,
    ensures
        ({
            let (r, t) = execute_step::<F>(s, CommandView::Rm { path });
            let at = parent_step::<F>(s.model, s.cwd, path);
            let parent = at.result->Ok_0;
            let found = F::lookup_step(at.model, parent, leaf_of(path));
            let looked = F::metadata_step(found.model, found.result->Ok_0);
            let removed = F::unlink_file_step(looked.model, parent, leaf_of(path));
            &&& at.result is Ok && found.result is Ok && removed.result is Ok
            &&& looked.result matches Ok(metadata) && metadata.kind == NodeKind::Regular
            &&& t == ShellState { model: removed.model, ..s }
        }),
{
}

/// A file that is removed is no longer found in the directory that its path leads into.
pub proof fn law_rm_removes_the_file<D: BlockDevice>(s: ShellState<Volume>, path: Seq<u8>)
    requires
        execute_step::<Ext2<D>>(s, CommandView::Rm { path }).0 is Ok,
        ({
            let at = parent_step::<Ext2<D>>(s.model, s.cwd, path);
            let parent = at.result->Ok_0;
            &&& healthy_dir(at.model, parent)
            &&& no_links(entries(at.model, parent))
            &&& find(entries(at.model, parent), leaf_of(path)) matches Some(child) ==> apart(
                file_layout(at.model, child),
                file_layout(at.model, parent),
            )
        }),
    ensures
        ({
            let (r, t) = execute_step::<Ext2<D>>(s, CommandView::Rm { path });
            let at = parent_step::<Ext2<D>>(s.model, s.cwd, path);
            &&& t.text == s.text && t.cwd == s.cwd
            &&& at.result matches Ok(parent) && misses(t.model, parent, leaf_of(path))
        }),
{
    lemma_rm::<Ext2<D>>(s, path);
    let at = parent_step::<Ext2<D>>(s.model, s.cwd, path);
    let v = at.model;
    let parent = at.result->Ok_0;
    let name = leaf_of(path);
    let found = lookup_step(v, parent, name);
    let child = found.result->Ok_0;
    let looked = metadata_step(found.volume, child);
    law_reading_changes_nothing(v, parent, name, 0, Seq::empty());
    law_reading_changes_nothing(found.volume, child, name, 0, Seq::empty());
    let w = looked.volume;
    assert(only_read(v, w));
    lemma_reread(v, w, parent);
    if let Some(child) = find(entries(v, parent), name) {
        assert(file_layout(w, child) == file_layout(v, child));
    }
    law_a_removed_file_is_gone(w, parent, name);
}

} // verus!
