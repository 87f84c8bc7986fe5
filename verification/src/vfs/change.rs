//! Changing files and directories by path.
use vstd::prelude::*;
use vstd::slice::slice_subrange;
use vstd::utf8::encode_utf8;

use crate::bytes::same_bytes;
use crate::fs::{name_check, Metadata, Name, NameError, NodeId, NodeKind};
use crate::heap::Heap;
use crate::text::ascii;

use super::path::{longer_after_push, names, rendered, Cwd, SLASH};
use super::read::regular_file;
use super::resolve::{
    descend, is_ascii, require_dir, resolve_step, short_resolve, starved, starved_below, target_of,
    Target, DOT, MAX_PATH_BYTES,
};
use super::{done, stop, FileSystem, FsError, Outcome, Vfs, VfsError};

verus! {

/// A path that ends with a slash.
pub open spec fn ends_with_slash(path: Seq<u8>) -> bool {
    path.len() > 0 && path.last() == SLASH
}

/// Where a path ends without the slashes at its end.
pub open spec fn bare_end(path: Seq<u8>, end: int) -> int
    decreases end,
{
    if end > 0 && path[end - 1] == SLASH {
        bare_end(path, end - 1)
    } else {
        end
    }
}

/// Where the component that ends at `end` starts.
pub open spec fn leaf_start(path: Seq<u8>, end: int) -> int
    decreases end,
{
    if end > 0 && path[end - 1] != SLASH {
        leaf_start(path, end - 1)
    } else {
        end
    }
}

/// The last component of a path.
pub open spec fn leaf_of(path: Seq<u8>) -> Seq<u8> {
    let end = bare_end(path, path.len() as int);
    path.subrange(leaf_start(path, end), end)
}

/// A path without its last component.
pub open spec fn parent_of(path: Seq<u8>) -> Seq<u8> {
    path.subrange(0, leaf_start(path, bare_end(path, path.len() as int)))
}

/// Whether a component names an entry, rather than the directory itself or its parent.
pub open spec fn entry_name(component: Seq<u8>) -> bool {
    name_check(component) is Ok && component != seq![DOT] && component != seq![DOT, DOT]
}

/// Finds the directory that the last component of a path is an entry of.
pub open spec fn parent_step<F: FileSystem>(
    m: F::Model,
    cwd: Seq<Seq<u8>>,
    path: Seq<u8>,
) -> Outcome<F::Model, NodeId, VfsError> {
    if path.len() > MAX_PATH_BYTES || !ascii(path) || !entry_name(leaf_of(path)) {
        stop(m, VfsError::InvalidPath)
    } else {
        resolve_step::<F>(m, cwd, parent_of(path)).and_then(
            |target: Target, m: F::Model|
                if rendered(target.components.push(leaf_of(path))).len() > MAX_PATH_BYTES {
                    stop(m, VfsError::InvalidPath)
                } else {
                    require_dir::<F>(m, target.node).and_then(
                        |u: (), m: F::Model| done(m, target.node),
                    )
                },
        )
    }
}

/// Creates a file. Its path does not end with a slash.
pub open spec fn create_file_step<F: FileSystem>(
    m: F::Model,
    cwd: Seq<Seq<u8>>,
    path: Seq<u8>,
) -> Outcome<F::Model, NodeId, VfsError> {
    if ends_with_slash(path) {
        stop(m, VfsError::NotDirectory)
    } else {
        parent_step::<F>(m, cwd, path).and_then(
            |parent: NodeId, m: F::Model| F::create_file_step(m, parent, leaf_of(path)).lifted(),
        )
    }
}

/// Creates a directory.
pub open spec fn create_dir_step<F: FileSystem>(
    m: F::Model,
    cwd: Seq<Seq<u8>>,
    path: Seq<u8>,
) -> Outcome<F::Model, NodeId, VfsError> {
    parent_step::<F>(m, cwd, path).and_then(
        |parent: NodeId, m: F::Model| F::create_dir_step(m, parent, leaf_of(path)).lifted(),
    )
}

/// Removes the file that an entry of a directory names.
pub open spec fn unlink_entry_step<F: FileSystem>(
    m: F::Model,
    parent: NodeId,
    name: Seq<u8>,
) -> Outcome<F::Model, (), VfsError> {
    F::lookup_step(m, parent, name).lifted().and_then(
        |node: NodeId, m: F::Model|
            F::metadata_step(m, node).lifted().and_then(
                |metadata: Metadata, m: F::Model|
                    if metadata.kind != NodeKind::Regular {
                        stop(m, VfsError::NotRegularFile)
                    } else {
                        F::unlink_file_step(m, parent, name).lifted()
                    },
            ),
    )
}

/// Removes a file. Its path does not end with a slash.
pub open spec fn unlink_file_step<F: FileSystem>(
    m: F::Model,
    cwd: Seq<Seq<u8>>,
    path: Seq<u8>,
) -> Outcome<F::Model, (), VfsError> {
    if ends_with_slash(path) {
        stop(m, VfsError::NotDirectory)
    } else {
        parent_step::<F>(m, cwd, path).and_then(
            |parent: NodeId, m: F::Model| unlink_entry_step::<F>(m, parent, leaf_of(path)),
        )
    }
}

/// Removes an empty directory: not the root, and not one that the working directory is in.
pub open spec fn remove_dir_step<F: FileSystem>(
    m: F::Model,
    cwd: Seq<Seq<u8>>,
    path: Seq<u8>,
) -> Outcome<F::Model, (), VfsError> {
    resolve_step::<F>(m, cwd, path).and_then(
        |target: Target, m: F::Model|
            if target.components.len() == 0 {
                stop(m, VfsError::InvalidPath)
            } else if target.components.is_prefix_of(cwd) {
                stop(m, VfsError::Busy)
            } else {
                require_dir::<F>(m, target.node).and_then(
                    |u: (), m: F::Model|
                        descend::<F>(m, target.components.drop_last(), 0, F::root_node()).and_then(
                            |parent: NodeId, m: F::Model|
                                F::remove_dir_step(m, parent, target.components.last()).lifted(),
                        ),
                )
            },
    )
}

/// Finds the file that a path leads to, and its length; creates it if there is none.
pub open spec fn open_step<F: FileSystem>(m: F::Model, cwd: Seq<Seq<u8>>, path: Seq<u8>) -> Outcome<
    F::Model,
    (NodeId, u64),
    VfsError,
> {
    let created = create_file_step::<F>(m, cwd, path);
    match created.result {
        Ok(node) => done(created.model, (node, 0)),
        Err(VfsError::Fs(FsError::AlreadyExists)) => regular_file::<F>(created.model, cwd, path),
        Err(e) => stop(created.model, e),
    }
}

/// Gives a node new contents.
pub open spec fn rewrite_step<F: FileSystem>(m: F::Model, node: NodeId, bytes: Seq<u8>) -> Outcome<
    F::Model,
    (),
    VfsError,
> {
    F::truncate_step(m, node, 0).lifted().and_then(
        |u: (), m: F::Model| F::write_at_step(m, node, 0, bytes).lifted(),
    )
}

/// Gives a file new contents.
pub open spec fn write_file_step<F: FileSystem>(
    m: F::Model,
    cwd: Seq<Seq<u8>>,
    path: Seq<u8>,
    bytes: Seq<u8>,
) -> Outcome<F::Model, (), VfsError> {
    open_step::<F>(m, cwd, path).and_then(
        |file: (NodeId, u64), m: F::Model| rewrite_step::<F>(m, file.0, bytes),
    )
}

/// Adds to a file at its end.
pub open spec fn append_file_step<F: FileSystem>(
    m: F::Model,
    cwd: Seq<Seq<u8>>,
    path: Seq<u8>,
    bytes: Seq<u8>,
) -> Outcome<F::Model, (), VfsError> {
    open_step::<F>(m, cwd, path).and_then(
        |file: (NodeId, u64), m: F::Model| F::write_at_step(m, file.0, file.1, bytes).lifted(),
    )
}

/// The file system as it is where finding the directory of an entry needs memory: at the start, for
/// the name of the entry, or on the way to the directory.
pub open spec fn short_parent<F: FileSystem>(
    m: F::Model,
    cwd: Seq<Seq<u8>>,
    path: Seq<u8>,
    after: F::Model,
) -> bool {
    &&& path.len() <= MAX_PATH_BYTES
    &&& ascii(path)
    &&& entry_name(leaf_of(path))
    &&& after == m || short_resolve::<F>(m, cwd, parent_of(path), after)
}

/// The file system as it is where creating or removing a file needs memory, which it does not where
/// the path ends with a slash.
pub open spec fn short_creation<F: FileSystem>(
    m: F::Model,
    cwd: Seq<Seq<u8>>,
    path: Seq<u8>,
    after: F::Model,
) -> bool {
    !ends_with_slash(path) && short_parent::<F>(m, cwd, path, after)
}

/// The file system as it is where opening a file needs memory: while it is created, or on the way to
/// it where there is one already.
pub open spec fn short_open<F: FileSystem>(
    m: F::Model,
    cwd: Seq<Seq<u8>>,
    path: Seq<u8>,
    after: F::Model,
) -> bool {
    let created = create_file_step::<F>(m, cwd, path);
    ||| short_creation::<F>(m, cwd, path, after)
    ||| created.result == Err::<NodeId, _>(VfsError::Fs(FsError::AlreadyExists)) && short_resolve::<
        F,
    >(created.model, cwd, path, after)
}

/// What removing a directory leaves where the file system is refused memory for it.
pub open spec fn short_removal<F: FileSystem>(
    m: F::Model,
    cwd: Seq<Seq<u8>>,
    path: Seq<u8>,
    after: F::Model,
) -> bool {
    let found = resolve_step::<F>(m, cwd, path);
    let target = found.result->Ok_0;
    let entered = require_dir::<F>(found.model, target.node);
    let above = descend::<F>(entered.model, target.components.drop_last(), 0, F::root_node());
    &&& found.result is Ok
    &&& target.components.len() > 0
    &&& !target.components.is_prefix_of(cwd)
    &&& entered.result is Ok
    &&& above.result is Ok
    &&& F::short_removal(above.model, above.result->Ok_0, target.components.last(), after)
}

/// The same result with the error as one of a path operation.
fn lifted<T>(r: Result<T, FsError>) -> (s: Result<T, VfsError>)
    ensures
        s == (match r {
            Ok(value) => Ok(value),
            Err(error) => Err(VfsError::Fs(error)),
        }),
{
    match r {
        Ok(value) => Ok(value),
        Err(error) => Err(VfsError::Fs(error)),
    }
}

/// Whether a path ends with a slash.
fn slash_at_end(path: &[u8]) -> (r: bool)
    ensures
        r == ends_with_slash(path@),
{
    path.len() > 0 && path[path.len() - 1] == SLASH
}

/// Where the last component of a path starts and ends.
fn find_leaf(path: &[u8]) -> (r: (usize, usize))
    ensures
        r.1 == bare_end(path@, path@.len() as int),
        r.0 == leaf_start(path@, r.1 as int),
        r.0 <= r.1 <= path@.len(),
{
    let mut end: usize = path.len();
    while end > 0 && path[end - 1] == SLASH
        invariant
            end <= path@.len(),
            bare_end(path@, path@.len() as int) == bare_end(path@, end as int),
        decreases end,
    {
        end = end - 1;
    }
    let mut start: usize = end;
    while start > 0 && path[start - 1] != SLASH
        invariant
            start <= end <= path@.len(),
            leaf_start(path@, end as int) == leaf_start(path@, start as int),
        decreases start,
    {
        start = start - 1;
    }
    (start, end)
}

/// Whether the names of one directory are the first names of another.
fn leads_to(components: &Vec<Name>, cwd: &Cwd) -> (r: bool)
    ensures
        r == names(components@).is_prefix_of(cwd@),
{
    if components.len() > cwd.components.len() {
        return false;
    }
    let mut i: usize = 0;
    while i < components.len()
        invariant
            i <= components@.len() <= cwd.components@.len(),
            forall|j: int| 0 <= j < i ==> (#[trigger] components@[j])@ == cwd.components@[j]@,
        decreases components@.len() - i,
    {
        if !same_bytes(components[i].as_bytes(), cwd.components[i].as_bytes()) {
            assert(names(components@)[i as int] != cwd@[i as int]);
            assert(!names(components@).is_prefix_of(cwd@)) by {
                if names(components@).is_prefix_of(cwd@) {
                    assert(names(components@) =~= cwd@.subrange(0, components@.len() as int));
                    assert(names(components@)[i as int] == cwd@.subrange(
                        0,
                        components@.len() as int,
                    )[i as int]);
                }
            }
            return false;
        }
        i = i + 1;
    }
    assert(names(components@) =~= cwd@.subrange(0, components@.len() as int));
    true
}

impl<F: FileSystem> Vfs<F> {
    /// Finds the directory that the last component of a path is an entry of, and gives that
    /// component too.
    fn find_parent(&mut self, cwd: &Cwd, path: &[u8]) -> (r: Result<(NodeId, Name), VfsError>)
        requires
            old(self).wf(),
            !old(self).refused(),
        ensures
            final(self).wf(),
            if final(self).refused() {
                starved(r) && short_parent::<F>(
                    old(self).model(),
                    cwd@,
                    path@,
                    final(self).model(),
                )
            } else {
                &&& (Outcome {
                    result: match r {
                        Ok((parent, name)) => Ok(parent),
                        Err(e) => Err(e),
                    },
                    model: final(self).model(),
                }) == parent_step::<F>(old(self).model(), cwd@, path@)
                &&& r is Ok ==> r->Ok_0.1@ == leaf_of(path@)
            },
    {
        if path.len() > MAX_PATH_BYTES || !is_ascii(path) {
            return Err(VfsError::InvalidPath);
        }
        let (start, end) = find_leaf(path);
        let leaf = slice_subrange(path, start, end);
        assert(leaf@ == leaf_of(path@));
        if leaf.len() == 1 && leaf[0] == DOT {
            assert(leaf@ =~= seq![DOT]);
            return Err(VfsError::InvalidPath);
        }
        assert(leaf@ != seq![DOT]);
        if leaf.len() == 2 && leaf[0] == DOT && leaf[1] == DOT {
            assert(leaf@ =~= seq![DOT, DOT]);
            return Err(VfsError::InvalidPath);
        }
        assert(leaf@ != seq![DOT, DOT]);
        let name = match Name::new_in(leaf, &mut self.heap) {
            Ok(name) => name,
            Err(NameError::Allocation) => return Err(VfsError::Allocation),
            Err(_) => return Err(VfsError::InvalidPath),
        };
        let resolved = self.resolve_bytes(cwd, slice_subrange(path, 0, start))?;
        if longer_after_push(&resolved.components, leaf.len(), MAX_PATH_BYTES) {
            assert(rendered(target_of(resolved).components.push(leaf@)).len() > MAX_PATH_BYTES);
            return Err(VfsError::InvalidPath);
        }
        assert(rendered(target_of(resolved).components.push(leaf@)).len() <= MAX_PATH_BYTES);
        self.require_directory(resolved.node)?;
        Ok((resolved.node, name))
    }

    /// Creates a file. Its path does not end with a slash.
    pub fn create_file(&mut self, cwd: &Cwd, path: &str) -> (r: Result<NodeId, VfsError>)
        requires
            old(self).wf(),
        ensures
            final(self).wf(),
            if final(self).refused() {
                starved(r) && short_creation::<F>(
                    old(self).model(),
                    cwd@,
                    encode_utf8(path@),
                    final(self).model(),
                )
            } else {
                (Outcome { result: r, model: final(self).model() }) == create_file_step::<F>(
                    old(self).model(),
                    cwd@,
                    encode_utf8(path@),
                )
            },
    {
        self.heap = Heap::new();
        let bytes = path.as_bytes();
        if slash_at_end(bytes) {
            return Err(VfsError::NotDirectory);
        }
        let (parent, name) = self.find_parent(cwd, bytes)?;
        lifted(self.filesystem.create_file(parent, &name))
    }

    /// Creates a directory.
    pub fn create_dir(&mut self, cwd: &Cwd, path: &str) -> (r: Result<NodeId, VfsError>)
        requires
            old(self).wf(),
        ensures
            final(self).wf(),
            if final(self).refused() {
                starved(r) && short_parent::<F>(
                    old(self).model(),
                    cwd@,
                    encode_utf8(path@),
                    final(self).model(),
                )
            } else {
                (Outcome { result: r, model: final(self).model() }) == create_dir_step::<F>(
                    old(self).model(),
                    cwd@,
                    encode_utf8(path@),
                )
            },
    {
        self.heap = Heap::new();
        let (parent, name) = self.find_parent(cwd, path.as_bytes())?;
        lifted(self.filesystem.create_dir(parent, &name))
    }

    /// Removes a file. Its path does not end with a slash.
    pub fn unlink_file(&mut self, cwd: &Cwd, path: &str) -> (r: Result<(), VfsError>)
        requires
            old(self).wf(),
        ensures
            final(self).wf(),
            if final(self).refused() {
                starved(r) && short_creation::<F>(
                    old(self).model(),
                    cwd@,
                    encode_utf8(path@),
                    final(self).model(),
                )
            } else {
                (Outcome { result: r, model: final(self).model() }) == unlink_file_step::<F>(
                    old(self).model(),
                    cwd@,
                    encode_utf8(path@),
                )
            },
    {
        self.heap = Heap::new();
        let bytes = path.as_bytes();
        if slash_at_end(bytes) {
            return Err(VfsError::NotDirectory);
        }
        let (parent, name) = self.find_parent(cwd, bytes)?;
        self.unlink_entry(parent, &name)
    }

    /// Removes the file that an entry of a directory names.
    fn unlink_entry(&mut self, parent: NodeId, name: &Name) -> (r: Result<(), VfsError>)
        requires
            old(self).wf(),
        ensures
            final(self).wf(),
            final(self).refused() == old(self).refused(),
            (Outcome { result: r, model: final(self).model() }) == unlink_entry_step::<F>(
                old(self).model(),
                parent,
                name@,
            ),
    {
        let node = lifted(self.filesystem.lookup(parent, name))?;
        let metadata = self.metadata(node)?;
        if metadata.kind != NodeKind::Regular {
            return Err(VfsError::NotRegularFile);
        }
        lifted(self.filesystem.unlink_file(parent, name))
    }

    /// Removes an empty directory: not the root, and not one that the working directory is in.
    pub fn remove_dir(&mut self, cwd: &Cwd, path: &str) -> (r: Result<(), VfsError>)
        requires
            old(self).wf(),
        ensures
            final(self).wf(),
            ({
                let m = old(self).model();
                let after = final(self).model();
                let way = encode_utf8(path@);
                let step = remove_dir_step::<F>(m, cwd@, way);
                if final(self).refused() {
                    starved(r) && short_resolve::<F>(m, cwd@, way, after)
                } else {
                    ||| (Outcome { result: r, model: after }) == step
                    ||| final(self).refused_below() && starved_below(r) && short_removal::<F>(
                        m,
                        cwd@,
                        way,
                        after,
                    ) && step.result is Err
                }
            }),
    {
        let resolved = self.resolve(cwd, path)?;
        let ghost target = target_of(resolved);
        if resolved.components.len() == 0 {
            return Err(VfsError::InvalidPath);
        }
        if leads_to(&resolved.components, cwd) {
            return Err(VfsError::Busy);
        }
        self.require_directory(resolved.node)?;
        let mut components = resolved.components;
        match components.pop() {
            Some(name) => {
                assert(names(components@) =~= target.components.drop_last());
                let parent = self.resolve_components(&components)?;
                lifted(self.filesystem.remove_dir(parent, &name))
            },
            None => Err(VfsError::InvalidPath),
        }
    }

    /// Finds the file that a path leads to, and its length; creates it if there is none.
    fn open_file(&mut self, cwd: &Cwd, path: &str) -> (r: Result<(NodeId, u64), VfsError>)
        requires
            old(self).wf(),
        ensures
            final(self).wf(),
            if final(self).refused() {
                starved(r) && short_open::<F>(
                    old(self).model(),
                    cwd@,
                    encode_utf8(path@),
                    final(self).model(),
                )
            } else {
                (Outcome { result: r, model: final(self).model() }) == open_step::<F>(
                    old(self).model(),
                    cwd@,
                    encode_utf8(path@),
                )
            },
    {
        match self.create_file(cwd, path) {
            Ok(node) => Ok((node, 0)),
            Err(VfsError::Fs(FsError::AlreadyExists)) => self.find_regular_file(cwd, path),
            Err(error) => Err(error),
        }
    }

    /// Gives a file new contents; creates it if there is none.
    pub fn write_file(&mut self, cwd: &Cwd, path: &str, bytes: &[u8]) -> (r: Result<(), VfsError>)
        requires
            old(self).wf(),
        ensures
            final(self).wf(),
            if final(self).refused() {
                starved(r) && short_open::<F>(
                    old(self).model(),
                    cwd@,
                    encode_utf8(path@),
                    final(self).model(),
                )
            } else {
                (Outcome { result: r, model: final(self).model() }) == write_file_step::<F>(
                    old(self).model(),
                    cwd@,
                    encode_utf8(path@),
                    bytes@,
                )
            },
    {
        let (node, _len) = self.open_file(cwd, path)?;
        self.rewrite(node, bytes)
    }

    /// Gives a node new contents.
    fn rewrite(&mut self, node: NodeId, bytes: &[u8]) -> (r: Result<(), VfsError>)
        requires
            old(self).wf(),
        ensures
            final(self).wf(),
            final(self).refused() == old(self).refused(),
            (Outcome { result: r, model: final(self).model() }) == rewrite_step::<F>(
                old(self).model(),
                node,
                bytes@,
            ),
    {
        lifted(self.filesystem.truncate(node, 0))?;
        lifted(self.filesystem.write_at(node, 0, bytes))
    }

    /// Adds to a file at its end; creates it if there is none.
    pub fn append_file(&mut self, cwd: &Cwd, path: &str, bytes: &[u8]) -> (r: Result<(), VfsError>)
        requires
            old(self).wf(),
        ensures
            final(self).wf(),
            if final(self).refused() {
                starved(r) && short_open::<F>(
                    old(self).model(),
                    cwd@,
                    encode_utf8(path@),
                    final(self).model(),
                )
            } else {
                (Outcome { result: r, model: final(self).model() }) == append_file_step::<F>(
                    old(self).model(),
                    cwd@,
                    encode_utf8(path@),
                    bytes@,
                )
            },
    {
        let (node, len) = self.open_file(cwd, path)?;
        lifted(self.filesystem.write_at(node, len, bytes))
    }

    /// Makes all changes durable.
    pub fn sync_fs(&mut self) -> (r: Result<(), VfsError>)
        requires
            old(self).wf(),
        ensures
            final(self).wf(),
            final(self).refused() == old(self).refused(),
            (Outcome { result: r, model: final(self).model() }) == F::sync_step(
                old(self).model(),
            ).lifted(),
    {
        lifted(self.filesystem.sync())
    }

    /// Ends the use of the file system.
    pub fn unmount_fs(&mut self) -> (r: Result<(), VfsError>)
        requires
            old(self).wf(),
        ensures
            final(self).wf(),
            final(self).refused() == old(self).refused(),
            (Outcome { result: r, model: final(self).model() }) == F::unmount_step(
                old(self).model(),
            ).lifted(),
    {
        lifted(self.filesystem.unmount())
    }
}

proof fn lemma_bare_end(path: Seq<u8>, end: int)
    requires
        0 <= end <= path.len(),
    ensures
        0 <= bare_end(path, end) <= end,
        forall|i: int| bare_end(path, end) <= i < end ==> #[trigger] path[i] == 0x2F,
        bare_end(path, end) > 0 ==> path[bare_end(path, end) - 1] != 0x2F,
    decreases end,
{
    if end > 0 && path[end - 1] == SLASH {
        lemma_bare_end(path, end - 1);
    }
}

proof fn lemma_leaf_start(path: Seq<u8>, end: int)
    requires
        0 <= end <= path.len(),
    ensures
        0 <= leaf_start(path, end) <= end,
        forall|i: int| leaf_start(path, end) <= i < end ==> #[trigger] path[i] != 0x2F,
        leaf_start(path, end) > 0 ==> path[leaf_start(path, end) - 1] == 0x2F,
        end > 0 && path[end - 1] != 0x2F ==> leaf_start(path, end) < end,
    decreases end,
{
    if end > 0 && path[end - 1] != SLASH {
        lemma_leaf_start(path, end - 1);
    }
}

/// A path is its parent, its last component, and slashes. The component holds no slash, the
/// parent is empty or ends with one, and the component is empty only where the path is made of
/// slashes.
pub proof fn law_a_path_is_its_parent_and_its_leaf(path: Seq<u8>)
    ensures
        ({
            let parent = parent_of(path);
            let leaf = leaf_of(path);
            let n = parent.len() + leaf.len();
            &&& n <= path.len()
            &&& path.take(n as int) == parent + leaf
            &&& forall|i: int| n <= i < path.len() ==> #[trigger] path[i] == 0x2F
            &&& forall|i: int| 0 <= i < leaf.len() ==> #[trigger] leaf[i] != 0x2F
            &&& parent.len() > 0 ==> parent.last() == 0x2F
            &&& leaf.len() == 0 ==> parent.len() == 0
        }),
{
    let end = bare_end(path, path.len() as int);
    lemma_bare_end(path, path.len() as int);
    lemma_leaf_start(path, end);
    assert(path.take(end) =~= parent_of(path) + leaf_of(path));
}

} // verus!
