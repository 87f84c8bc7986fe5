//! Following paths, and reading what they lead to.
use vstd::prelude::*;
use vstd::slice::slice_subrange;
use vstd::utf8::encode_utf8;

use crate::fs::{
    listing, name_check, DirEntry, EntryView, Metadata, Name, NameError, NodeId, NodeKind,
};
use crate::heap::Heap;
use crate::text::ascii;

use super::path::{
    clone_components, cwd_path_in, longer_after_push, names, rendered, Cwd, ResolvedPath, SLASH,
};
use super::{done, stop, FileSystem, FsError, Outcome, Vfs, VfsError};

verus! {

/// The longest path, in bytes.
pub const MAX_PATH_BYTES: usize = 4096;

/// Bytes that are read at a time.
pub const READ_BUFFER_BYTES: usize = 4096;

/// The byte of a dot.
pub const DOT: u8 = 0x2e;

/// What a path leads to: a node, and the names that lead to it from the root.
pub struct Target {
    pub node: NodeId,
    pub components: Seq<Seq<u8>>,
}

/// A component of a path stands between two places.
pub open spec fn is_component(path: Seq<u8>, at: int, end: int) -> bool {
    &&& 0 <= at <= end <= path.len()
    &&& at == 0 || path[at - 1] == SLASH
    &&& end == path.len() || path[end] == SLASH
    &&& forall|i: int| at <= i < end ==> #[trigger] path[i] != SLASH
}

/// A component is a name: it is not empty, and stands neither for the directory itself nor for its
/// parent.
pub open spec fn is_name(component: Seq<u8>) -> bool {
    component.len() > 0 && component != seq![DOT] && component != seq![DOT, DOT]
}

/// Following a path takes memory: it starts in a working directory other than the root, or has a
/// name among its components.
pub open spec fn takes_memory(cwd: Seq<Seq<u8>>, path: Seq<u8>) -> bool {
    &&& path.len() <= MAX_PATH_BYTES
    &&& ascii(path)
    &&& cwd.len() > 0 && !(path.len() > 0 && path[0] == SLASH) || exists|at: int, end: int|
        #[trigger] is_component(path, at, end) && is_name(path.subrange(at, end))
}

/// An operation on a path failed for want of memory.
pub open spec fn starved<T>(r: Result<T, VfsError>) -> bool {
    r is Err && r->Err_0 == VfsError::Allocation
}

/// A file system reports that it failed for want of memory.
pub open spec fn starved_below<T>(r: Result<T, VfsError>) -> bool {
    r is Err && r->Err_0 == VfsError::Fs(FsError::Allocation)
}

/// Tests that a node is a directory.
pub open spec fn require_dir<F: FileSystem>(m: F::Model, node: NodeId) -> Outcome<
    F::Model,
    (),
    VfsError,
> {
    F::metadata_step(m, node).lifted().and_then(
        |metadata: Metadata, m: F::Model|
            if metadata.kind == NodeKind::Directory {
                done(m, ())
            } else {
                stop(m, VfsError::NotDirectory)
            },
    )
}

/// Follows the names from `from` on, starting at `node`.
pub open spec fn descend<F: FileSystem>(
    m: F::Model,
    components: Seq<Seq<u8>>,
    from: int,
    node: NodeId,
) -> Outcome<F::Model, NodeId, VfsError>
    decreases components.len() - from,
{
    if from >= components.len() {
        done(m, node)
    } else {
        let checked = require_dir::<F>(m, node);
        match checked.result {
            Err(e) => stop(checked.model, e),
            Ok(()) => {
                let found = F::lookup_step(checked.model, node, components[from]);
                match found.result {
                    Err(e) => stop(found.model, VfsError::Fs(e)),
                    Ok(next) => descend::<F>(found.model, components, from + 1, next),
                }
            },
        }
    }
}

/// Where the component that starts at `at` ends.
pub open spec fn component_end(path: Seq<u8>, at: int) -> int
    decreases path.len() - at,
{
    if at >= path.len() || path[at] == SLASH {
        at
    } else {
        component_end(path, at + 1)
    }
}

/// Follows one component. `rest` is where the rest of the path begins.
pub open spec fn follow<F: FileSystem>(
    m: F::Model,
    path: Seq<u8>,
    rest: int,
    component: Seq<u8>,
    target: Target,
) -> Outcome<F::Model, Target, VfsError> {
    if component.len() == 0 {
        done(m, target)
    } else if component == seq![DOT] {
        if exists|i: int| rest <= i < path.len() && #[trigger] path[i] != SLASH {
            require_dir::<F>(m, target.node).and_then(|u: (), m: F::Model| done(m, target))
        } else {
            done(m, target)
        }
    } else if component == seq![DOT, DOT] {
        require_dir::<F>(m, target.node).and_then(
            |u: (), m: F::Model|
                if target.components.len() == 0 {
                    done(m, target)
                } else {
                    descend::<F>(m, target.components.drop_last(), 0, F::root_node()).and_then(
                        |node: NodeId, m: F::Model|
                            done(
                                m,
                                Target { node, components: target.components.drop_last() },
                            ),
                    )
                },
        )
    } else {
        require_dir::<F>(m, target.node).and_then(
            |u: (), m: F::Model|
                if rendered(target.components.push(component)).len() > MAX_PATH_BYTES
                    || name_check(component) is Err {
                    stop(m, VfsError::InvalidPath)
                } else {
                    F::lookup_step(m, target.node, component).lifted().and_then(
                        |node: NodeId, m: F::Model|
                            done(
                                m,
                                Target { node, components: target.components.push(component) },
                            ),
                    )
                },
        )
    }
}

/// The file system as it is where following a component needs memory: before a name is looked up,
/// and when it has been found.
pub open spec fn short_follow<F: FileSystem>(
    m: F::Model,
    component: Seq<u8>,
    target: Target,
    after: F::Model,
) -> bool {
    let entered = require_dir::<F>(m, target.node);
    let found = F::lookup_step(entered.model, target.node, component);
    &&& is_name(component)
    &&& entered.result is Ok
    &&& rendered(target.components.push(component)).len() <= MAX_PATH_BYTES
    &&& name_check(component) is Ok
    &&& after == entered.model || found.result is Ok && after == found.model
}

/// The file system as it is where following the components of a path from `at` on needs memory.
pub open spec fn short_walk<F: FileSystem>(
    m: F::Model,
    path: Seq<u8>,
    at: int,
    target: Target,
    after: F::Model,
) -> bool
    decreases path.len() + 1 - at,
{
    let end = component_end(path, at);
    if !(at <= end <= path.len()) {
        false
    } else {
        let component = path.subrange(at, end);
        let followed = follow::<F>(m, path, end, component, target);
        ||| short_follow::<F>(m, component, target, after)
        ||| followed.result is Ok && short_walk::<F>(
            followed.model,
            path,
            end + 1,
            followed.result->Ok_0,
            after,
        )
    }
}

/// The file system as it is where following a path needs memory: at the start, for the names of the
/// working directory, or at one of its components. All errors that come earlier are excluded.
pub open spec fn short_resolve<F: FileSystem>(
    m: F::Model,
    cwd: Seq<Seq<u8>>,
    path: Seq<u8>,
    after: F::Model,
) -> bool {
    let start = origin::<F>(m, cwd, path);
    &&& path.len() <= MAX_PATH_BYTES
    &&& ascii(path)
    &&& {
        ||| cwd.len() > 0 && !(path.len() > 0 && path[0] == SLASH) && after == m
        ||| start.result is Ok && short_walk::<F>(
            start.model,
            path,
            0,
            start.result->Ok_0,
            after,
        )
    }
}

/// Follows the components of a path that start at `at` or behind it.
pub open spec fn walk<F: FileSystem>(
    m: F::Model,
    path: Seq<u8>,
    at: int,
    target: Target,
) -> Outcome<
    F::Model,
    Target,
    VfsError,
>
    decreases path.len() + 1 - at,
{
    let end = component_end(path, at);
    if !(at <= end <= path.len()) {
        done(m, target)
    } else {
        let followed = follow::<F>(m, path, end, path.subrange(at, end), target);
        match followed.result {
            Err(e) => stop(followed.model, e),
            Ok(next) => walk::<F>(followed.model, path, end + 1, next),
        }
    }
}

/// Where a path starts: at the root if it begins with a slash, else at the working directory.
pub open spec fn origin<F: FileSystem>(m: F::Model, cwd: Seq<Seq<u8>>, path: Seq<u8>) -> Outcome<
    F::Model,
    Target,
    VfsError,
> {
    if path.len() > 0 && path[0] == SLASH {
        done(m, Target { node: F::root_node(), components: Seq::empty() })
    } else {
        descend::<F>(m, cwd, 0, F::root_node()).and_then(
            |node: NodeId, m: F::Model| done(m, Target { node, components: cwd }),
        )
    }
}

/// Follows a path. One that ends with a slash must lead to a directory.
pub open spec fn resolve_step<F: FileSystem>(
    m: F::Model,
    cwd: Seq<Seq<u8>>,
    path: Seq<u8>,
) -> Outcome<F::Model, Target, VfsError> {
    if path.len() > MAX_PATH_BYTES || !ascii(path) {
        stop(m, VfsError::InvalidPath)
    } else {
        origin::<F>(m, cwd, path).and_then(
            |start: Target, m: F::Model|
                walk::<F>(m, path, 0, start).and_then(
                    |target: Target, m: F::Model|
                        if path.len() > 0 && path.last() == SLASH {
                            require_dir::<F>(m, target.node).and_then(
                                |u: (), m: F::Model| done(m, target),
                            )
                        } else {
                            done(m, target)
                        },
                ),
        )
    }
}

/// Follows a path to a directory.
pub open spec fn change_dir_step<F: FileSystem>(
    m: F::Model,
    cwd: Seq<Seq<u8>>,
    path: Seq<u8>,
) -> Outcome<F::Model, Seq<Seq<u8>>, VfsError> {
    resolve_step::<F>(m, cwd, path).and_then(
        |target: Target, m: F::Model|
            require_dir::<F>(m, target.node).and_then(
                |u: (), m: F::Model| done(m, target.components),
            ),
    )
}

/// The node that a path leads to; that of the working directory if there is no path.
pub open spec fn listed_node<F: FileSystem>(
    m: F::Model,
    cwd: Seq<Seq<u8>>,
    path: Option<Seq<u8>>,
) -> Outcome<F::Model, NodeId, VfsError> {
    match path {
        Some(path) => resolve_step::<F>(m, cwd, path).and_then(
            |target: Target, m: F::Model| done(m, target.node),
        ),
        None => descend::<F>(m, cwd, 0, F::root_node()),
    }
}

/// Lists a directory.
pub open spec fn list_step<F: FileSystem>(
    m: F::Model,
    cwd: Seq<Seq<u8>>,
    path: Option<Seq<u8>>,
) -> Outcome<F::Model, Seq<EntryView>, VfsError> {
    listed_node::<F>(m, cwd, path).and_then(
        |node: NodeId, m: F::Model|
            require_dir::<F>(m, node).and_then(
                |u: (), m: F::Model| F::read_dir_step(m, node).lifted(),
            ),
    )
}

/// What listing a directory leaves where the file system is refused memory for it.
pub open spec fn short_list<F: FileSystem>(
    m: F::Model,
    cwd: Seq<Seq<u8>>,
    path: Option<Seq<u8>>,
    after: F::Model,
) -> bool {
    let found = listed_node::<F>(m, cwd, path);
    let entered = require_dir::<F>(found.model, found.result->Ok_0);
    &&& found.result is Ok
    &&& entered.result is Ok
    &&& F::short_listing(entered.model, found.result->Ok_0, after)
}

/// Whether a character other than a slash follows.
fn more_follows(path: &[u8], from: usize) -> (r: bool)
    requires
        from <= path@.len(),
    ensures
        r == exists|i: int| from <= i < path@.len() && #[trigger] path@[i] != SLASH,
{
    let mut i: usize = from;
    while i < path.len()
        invariant
            from <= i <= path@.len(),
            forall|j: int| from <= j < i ==> #[trigger] path@[j] == SLASH,
        decreases path@.len() - i,
    {
        if path[i] != SLASH {
            assert(path@[i as int] != SLASH);
            return true;
        }
        i = i + 1;
    }
    false
}

/// Where the component that starts at `at` ends.
fn find_end(path: &[u8], at: usize) -> (end: usize)
    requires
        at <= path@.len(),
    ensures
        end == component_end(path@, at as int),
        at <= end <= path@.len(),
        at == 0 || path@[at - 1] == SLASH ==> is_component(path@, at as int, end as int),
{
    let mut end: usize = at;
    while end < path.len() && path[end] != SLASH
        invariant
            at <= end <= path@.len(),
            forall|i: int| at <= i < end ==> #[trigger] path@[i] != SLASH,
            component_end(path@, at as int) == component_end(path@, end as int),
        decreases path@.len() - end,
    {
        end = end + 1;
    }
    end
}

/// Whether all bytes are ASCII.
pub(super) fn is_ascii(path: &[u8]) -> (r: bool)
    ensures
        r == ascii(path@),
{
    let mut i: usize = 0;
    while i < path.len()
        invariant
            i <= path@.len(),
            forall|j: int| 0 <= j < i ==> #[trigger] path@[j] < 0x80,
        decreases path@.len() - i,
    {
        if path[i] >= 0x80 {
            assert(path@[i as int] >= 0x80);
            return false;
        }
        i = i + 1;
    }
    true
}

/// The target that a resolved path stands for.
pub open spec fn target_of(resolved: ResolvedPath) -> Target {
    Target { node: resolved.node, components: names(resolved.components@) }
}

impl<F: FileSystem> Vfs<F> {
    /// The kind, length and permissions of a node.
    pub fn metadata(&mut self, node: NodeId) -> (r: Result<Metadata, VfsError>)
        requires
            old(self).wf(),
        ensures
            final(self).wf(),
            final(self).refused() == old(self).refused(),
            (Outcome { result: r, model: final(self).model() }) == F::metadata_step(
                old(self).model(),
                node,
            ).lifted(),
    {
        match self.filesystem.metadata(node) {
            Ok(metadata) => Ok(metadata),
            Err(error) => Err(VfsError::Fs(error)),
        }
    }

    /// The canonical path of a working directory.
    pub fn cwd_path(&self, cwd: &Cwd) -> (r: Result<Vec<u8>, VfsError>)
        ensures
            match r {
                Ok(path) => path@ == rendered(cwd@),
                Err(e) => e == VfsError::Allocation,
            },
    {
        cwd_path_in(cwd, &mut Heap::new())
    }

    /// The canonical path of a working directory. It fails exactly where memory is refused.
    pub(crate) fn show_cwd(&mut self, cwd: &Cwd) -> (r: Result<Vec<u8>, VfsError>)
        requires
            old(self).wf(),
        ensures
            final(self).wf(),
            final(self).model() == old(self).model(),
            match r {
                Ok(path) => !final(self).refused() && path@ == rendered(cwd@),
                Err(e) => final(self).refused() && e == VfsError::Allocation,
            },
    {
        self.heap = Heap::new();
        cwd_path_in(cwd, &mut self.heap)
    }

    /// Begins anew: what was refused before no longer counts.
    pub(crate) fn begin(&mut self)
        requires
            old(self).wf(),
        ensures
            final(self).wf(),
            final(self).model() == old(self).model(),
            !final(self).refused(),
    {
        self.heap = Heap::new();
    }

    /// Tests that a node is a directory.
    pub(super) fn require_directory(&mut self, node: NodeId) -> (r: Result<(), VfsError>)
        requires
            old(self).wf(),
        ensures
            final(self).wf(),
            final(self).refused() == old(self).refused(),
            (Outcome { result: r, model: final(self).model() }) == require_dir::<F>(
                old(self).model(),
                node,
            ),
    {
        let metadata = self.metadata(node)?;
        if metadata.kind != NodeKind::Directory {
            return Err(VfsError::NotDirectory);
        }
        Ok(())
    }

    /// Follows names from the root.
    pub(super) fn resolve_components(&mut self, components: &Vec<Name>) -> (r: Result<
        NodeId,
        VfsError,
    >)
        requires
            old(self).wf(),
        ensures
            final(self).wf(),
            final(self).refused() == old(self).refused(),
            (Outcome { result: r, model: final(self).model() }) == descend::<F>(
                old(self).model(),
                names(components@),
                0,
                F::root_node(),
            ),
    {
        let ghost whole = descend::<F>(self.model(), names(components@), 0, F::root_node());
        let mut node = self.filesystem.root();
        let mut i: usize = 0;
        while i < components.len()
            invariant
                self.wf(),
                self.refused() == old(self).refused(),
                i <= components@.len(),
                whole == descend::<F>(
                    old(self).model(),
                    names(components@),
                    0,
                    F::root_node(),
                ),
                whole == descend::<F>(self.model(), names(components@), i as int, node),
            decreases components@.len() - i,
        {
            self.require_directory(node)?;
            assert(names(components@)[i as int] == components@[i as int]@);
            node = match self.filesystem.lookup(node, &components[i]) {
                Ok(next) => next,
                Err(error) => return Err(VfsError::Fs(error)),
            };
            i = i + 1;
        }
        Ok(node)
    }

    /// Follows one component.
    fn follow_component(
        &mut self,
        path: &[u8],
        at: usize,
        end: usize,
        resolved: ResolvedPath,
    ) -> (r: Result<ResolvedPath, VfsError>)
        requires
            old(self).wf(),
            !old(self).refused(),
            is_component(path@, at as int, end as int),
        ensures
            final(self).wf(),
            if final(self).refused() {
                starved(r) && short_follow::<F>(
                    old(self).model(),
                    path@.subrange(at as int, end as int),
                    target_of(resolved),
                    final(self).model(),
                )
            } else {
                (Outcome {
                    result: match r {
                        Ok(next) => Ok(target_of(next)),
                        Err(e) => Err(e),
                    },
                    model: final(self).model(),
                }) == follow::<F>(
                    old(self).model(),
                    path@,
                    end as int,
                    path@.subrange(at as int, end as int),
                    target_of(resolved),
                )
            },
    {
        let ghost target = target_of(resolved);
        let component = slice_subrange(path, at, end);
        let mut resolved = resolved;
        if component.len() == 0 {
            return Ok(resolved);
        }
        if component.len() == 1 && component[0] == DOT {
            assert(component@ =~= seq![DOT]);
            if more_follows(path, end) {
                self.require_directory(resolved.node)?;
            }
            return Ok(resolved);
        }
        assert(component@ != seq![DOT]);
        if component.len() == 2 && component[0] == DOT && component[1] == DOT {
            assert(component@ =~= seq![DOT, DOT]);
            self.require_directory(resolved.node)?;
            if resolved.components.len() > 0 {
                let _last = resolved.components.pop();
                assert(names(resolved.components@) =~= target.components.drop_last());
                resolved.node = self.resolve_components(&resolved.components)?;
            }
            return Ok(resolved);
        }
        assert(component@ != seq![DOT, DOT]);
        self.require_directory(resolved.node)?;
        if longer_after_push(&resolved.components, component.len(), MAX_PATH_BYTES) {
            assert(rendered(target.components.push(component@)).len() > MAX_PATH_BYTES);
            return Err(VfsError::InvalidPath);
        }
        assert(rendered(target.components.push(component@)).len() <= MAX_PATH_BYTES);
        let name = match Name::new_in(component, &mut self.heap) {
            Ok(name) => name,
            Err(NameError::Allocation) => return Err(VfsError::Allocation),
            Err(_) => return Err(VfsError::InvalidPath),
        };
        resolved.node = match self.filesystem.lookup(resolved.node, &name) {
            Ok(node) => node,
            Err(error) => return Err(VfsError::Fs(error)),
        };
        if !self.heap.reserve(&mut resolved.components, 1) {
            return Err(VfsError::Allocation);
        }
        resolved.components.push(name);
        assert(names(resolved.components@) =~= target.components.push(component@));
        Ok(resolved)
    }

    /// Follows a path. It fails for want of memory exactly where memory is refused.
    pub fn resolve(&mut self, cwd: &Cwd, path: &str) -> (r: Result<ResolvedPath, VfsError>)
        requires
            old(self).wf(),
        ensures
            final(self).wf(),
            if final(self).refused() {
                starved(r) && short_resolve::<F>(
                    old(self).model(),
                    cwd@,
                    encode_utf8(path@),
                    final(self).model(),
                )
            } else {
                (Outcome {
                    result: match r {
                        Ok(resolved) => Ok(target_of(resolved)),
                        Err(e) => Err(e),
                    },
                    model: final(self).model(),
                }) == resolve_step::<F>(old(self).model(), cwd@, encode_utf8(path@))
            },
    {
        self.heap = Heap::new();
        self.resolve_bytes(cwd, path.as_bytes())
    }

    /// Follows a path given as bytes.
    pub(super) fn resolve_bytes(&mut self, cwd: &Cwd, path: &[u8]) -> (r: Result<
        ResolvedPath,
        VfsError,
    >)
        requires
            old(self).wf(),
            !old(self).refused(),
        ensures
            final(self).wf(),
            if final(self).refused() {
                starved(r) && short_resolve::<F>(
                    old(self).model(),
                    cwd@,
                    path@,
                    final(self).model(),
                )
            } else {
                (Outcome {
                    result: match r {
                        Ok(resolved) => Ok(target_of(resolved)),
                        Err(e) => Err(e),
                    },
                    model: final(self).model(),
                }) == resolve_step::<F>(old(self).model(), cwd@, path@)
            },
    {
        if path.len() > MAX_PATH_BYTES || !is_ascii(path) {
            return Err(VfsError::InvalidPath);
        }
        let ghost whole = resolve_step::<F>(self.model(), cwd@, path@);
        let mut resolved = if path.len() > 0 && path[0] == SLASH {
            let none: Vec<Name> = Vec::new();
            assert(names(none@) =~= Seq::<Seq<u8>>::empty());
            ResolvedPath { node: self.filesystem.root(), components: none }
        } else {
            let components = clone_components(&cwd.components, &mut self.heap)?;
            let node = self.resolve_components(&components)?;
            ResolvedPath { node, components }
        };
        let ghost finish = |target: Target, m: F::Model|
            if path@.len() > 0 && path@.last() == SLASH {
                require_dir::<F>(m, target.node).and_then(|u: (), m: F::Model| done(m, target))
            } else {
                done(m, target)
            };
        assert(whole == walk::<F>(self.model(), path@, 0, target_of(resolved)).and_then(finish));
        let mut at: usize = 0;
        while at <= path.len()
            invariant
                self.wf(),
                !self.refused(),
                path@.len() <= MAX_PATH_BYTES,
                ascii(path@),
                at <= path@.len() + 1,
                at == 0 || at > path@.len() || path@[at - 1] == SLASH,
                whole == resolve_step::<F>(old(self).model(), cwd@, path@),
                whole == walk::<F>(self.model(), path@, at as int, target_of(resolved)).and_then(
                    finish,
                ),
                forall|after: F::Model| #[trigger]
                    short_walk::<F>(
                        self.model(),
                        path@,
                        at as int,
                        target_of(resolved),
                        after,
                    ) ==> short_resolve::<F>(old(self).model(), cwd@, path@, after),
            decreases path@.len() + 1 - at,
        {
            let end: usize = find_end(path, at);
            assert(is_component(path@, at as int, end as int));
            let ghost before = self.model();
            let ghost target = target_of(resolved);
            let followed = self.follow_component(path, at, end, resolved);
            proof {
                if self.refused() {
                    assert(short_walk::<F>(before, path@, at as int, target, self.model()));
                }
            }
            resolved = followed?;
            assert forall|after: F::Model| #[trigger]
                short_walk::<F>(
                    self.model(),
                    path@,
                    end + 1,
                    target_of(resolved),
                    after,
                ) implies short_walk::<F>(before, path@, at as int, target, after) by {}
            at = end + 1;
        }
        if path.len() > 0 && path[path.len() - 1] == SLASH {
            self.require_directory(resolved.node)?;
        }
        Ok(resolved)
    }

    /// Follows a path to a directory.
    pub fn change_dir(&mut self, cwd: &Cwd, path: &str) -> (r: Result<Cwd, VfsError>)
        requires
            old(self).wf(),
        ensures
            final(self).wf(),
            if final(self).refused() {
                starved(r) && short_resolve::<F>(
                    old(self).model(),
                    cwd@,
                    encode_utf8(path@),
                    final(self).model(),
                )
            } else {
                (Outcome {
                    result: match r {
                        Ok(changed) => Ok(changed@),
                        Err(e) => Err(e),
                    },
                    model: final(self).model(),
                }) == change_dir_step::<F>(old(self).model(), cwd@, encode_utf8(path@))
            },
    {
        let resolved = self.resolve(cwd, path)?;
        self.require_directory(resolved.node)?;
        Ok(Cwd { components: resolved.components })
    }

    /// Lists a directory: that of a path, or the working directory. For want of memory it fails
    /// exactly where memory is refused, on the way or below, for one of the entries.
    pub fn list(&mut self, cwd: &Cwd, path: Option<&str>) -> (r: Result<Vec<DirEntry>, VfsError>)
        requires
            old(self).wf(),
        ensures
            final(self).wf(),
            ({
                let m = old(self).model();
                let after = final(self).model();
                let way = match path {
                    Some(path) => Some(encode_utf8(path@)),
                    None => None,
                };
                let step = list_step::<F>(m, cwd@, way);
                if final(self).refused() {
                    starved(r) && way is Some && short_resolve::<F>(m, cwd@, way->0, after)
                } else {
                    ||| (Outcome {
                        result: match r {
                            Ok(entries) => Ok(listing(entries@)),
                            Err(e) => Err(e),
                        },
                        model: after,
                    }) == step
                    ||| final(self).refused_below() && starved_below(r) && short_list::<F>(
                        m,
                        cwd@,
                        way,
                        after,
                    ) && step.result != Ok::<Seq<EntryView>, VfsError>(Seq::empty())
                }
            }),
    {
        self.heap = Heap::new();
        let node = match path {
            Some(path) => self.resolve(cwd, path)?.node,
            None => self.resolve_components(&cwd.components)?,
        };
        self.require_directory(node)?;
        match self.filesystem.read_dir(node) {
            Ok(entries) => Ok(entries),
            Err(error) => Err(VfsError::Fs(error)),
        }
    }
}

proof fn lemma_component(path: Seq<u8>, at: int)
    requires
        0 <= at <= path.len(),
        at == 0 || path[at - 1] == SLASH,
    ensures
        at <= component_end(path, at) <= path.len(),
        is_component(path, at, component_end(path, at)),
{
    lemma_component_end_at(path, at, at);
}

proof fn lemma_component_end_at(path: Seq<u8>, at: int, end: int)
    requires
        0 <= at <= end <= path.len(),
        forall|i: int| at <= i < end ==> #[trigger] path[i] != SLASH,
    ensures
        end <= component_end(path, end) <= path.len(),
        forall|i: int| at <= i < component_end(path, end) ==> #[trigger] path[i] != SLASH,
        component_end(path, end) == path.len() || path[component_end(path, end)] == SLASH,
    decreases path.len() - end,
{
    if end < path.len() && path[end] != SLASH {
        lemma_component_end_at(path, at, end + 1);
    }
}

proof fn lemma_walk_without_names<F: FileSystem>(
    m: F::Model,
    path: Seq<u8>,
    at: int,
    target: Target,
    after: F::Model,
)
    requires
        0 <= at <= path.len() + 1,
        at == 0 || at > path.len() || path[at - 1] == SLASH,
        short_walk::<F>(m, path, at, target, after),
    ensures
        exists|at: int, end: int| #[trigger]
            is_component(path, at, end) && is_name(path.subrange(at, end)),
    decreases path.len() + 1 - at,
{
    let end = component_end(path, at);
    if at <= path.len() {
        lemma_component(path, at);
        let component = path.subrange(at, end);
        if !is_name(component) {
            let followed = follow::<F>(m, path, end, component, target);
            lemma_walk_without_names::<F>(
                followed.model,
                path,
                end + 1,
                followed.result->Ok_0,
                after,
            );
        }
    }
}

/// Following a path can fail for want of memory only where it starts in a working directory other
/// than the root, or has a name among its components.
pub proof fn law_only_names_take_memory<F: FileSystem>(
    m: F::Model,
    cwd: Seq<Seq<u8>>,
    path: Seq<u8>,
    after: F::Model,
)
    requires
        short_resolve::<F>(m, cwd, path, after),
    ensures
        takes_memory(cwd, path),
{
    let start = origin::<F>(m, cwd, path);
    if start.result is Ok && short_walk::<F>(start.model, path, 0, start.result->Ok_0, after) {
        lemma_walk_without_names::<F>(start.model, path, 0, start.result->Ok_0, after);
    }
}

} // verus!
